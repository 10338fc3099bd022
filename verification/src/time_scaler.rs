use vstd::prelude::*;

use crate::error::InsufficientInputError;
use crate::window::{window_halves_complementary, window_in_range, WINDOW_ONE};

verus! {

/// Upper bound on the analysis window length. Together with the fixed-point
/// sample and window scales it keeps every overlap-add accumulator within
/// `i64` (at most `(block_size + 1) * 2^30`).
pub const BLOCK_SIZE_LIMIT: usize = 0x10_0000;

/// Largest magnitude of a fixed-point sample value: 16-bit PCM samples lie
/// in `[-32768, 32767]`.
pub const SAMPLE_LIMIT: i64 = 32768;

/// Largest magnitude an output accumulator can reach: at most
/// `BLOCK_SIZE_LIMIT + 1` windows overlap one index, each contributing at
/// most `SAMPLE_LIMIT * WINDOW_ONE`.
pub const OUT_MAG: i64 = 0x4_0000_4000_0000;

/// Number of complete synthesis steps the engine performs once `in_len`
/// input samples have arrived: step `t` consumes input
/// `[t * hop, t * hop + block_size)`, so steps run while that range fits.
pub open spec fn steps_of(in_len: int, block_size: int, hop: int) -> int {
    if in_len >= block_size {
        (in_len - block_size) / hop + 1
    } else {
        0
    }
}

/// Whether synthesis step `t` touches output index `j`: the window written
/// by step `t` spans `[t * synth_hop, t * synth_hop + block_size)`.
pub open spec fn step_covers(synth_hop: int, block_size: int, t: int, j: int) -> bool {
    t * synth_hop <= j < t * synth_hop + block_size
}

/// How many of the first `k` synthesis steps touch output index `j`.
pub open spec fn cover_count(synth_hop: int, block_size: int, k: int, j: int) -> int
    decreases k,
{
    if k <= 0 {
        0
    } else {
        cover_count(synth_hop, block_size, k - 1, j) + if step_covers(
            synth_hop,
            block_size,
            k - 1,
            j,
        ) {
            1int
        } else {
            0int
        }
    }
}

/// What synthesis step `t` adds at output index `j`: the input sample the
/// window covers there, weighted by the window coefficient, or zero where
/// the window does not reach.
pub open spec fn step_term(
    w: Seq<int>,
    input: Seq<int>,
    hop: int,
    synth_hop: int,
    t: int,
    j: int,
) -> int {
    if step_covers(synth_hop, w.len() as int, t, j) {
        input[t * hop + (j - t * synth_hop)] * w[j - t * synth_hop]
    } else {
        0
    }
}

/// The overlap-add accumulation: the output value at index `j` after the
/// first `k` synthesis steps is the sum of the terms of those steps.
pub open spec fn ola_val(
    w: Seq<int>,
    input: Seq<int>,
    hop: int,
    synth_hop: int,
    k: int,
    j: int,
) -> int
    decreases k,
{
    if k <= 0 {
        0
    } else {
        ola_val(w, input, hop, synth_hop, k - 1, j) + step_term(
            w,
            input,
            hop,
            synth_hop,
            k - 1,
            j,
        )
    }
}

/// Length of the output accumulation buffer after `k` synthesis steps: the
/// last step wrote a full window starting at `(k - 1) * synth_hop`.
pub open spec fn out_len_of(k: int, block_size: int, synth_hop: int) -> int {
    if k <= 0 {
        0
    } else {
        (k - 1) * synth_hop + block_size
    }
}

/// Multiplying by a positive divisor and dividing back are inverse in the
/// usual floored sense: `t * s <= a` exactly when `t <= a / s`.
proof fn lemma_le_div_iff(a: int, t: int, s: int)
    requires
        1 <= s,
    ensures
        t * s <= a <==> t <= a / s,
{
    let q = a / s;
    let r = a % s;
    vstd::arithmetic::div_mod::lemma_fundamental_div_mod(a, s);
    vstd::arithmetic::div_mod::lemma_mod_bound(a, s);
    assert(t <= q ==> t * s <= a) by (nonlinear_arith)
        requires
            a == s * q + r,
            0 <= r,
            1 <= s,
    ;
    assert(t * s <= a ==> t <= q) by (nonlinear_arith)
        requires
            a == s * q + r,
            r < s,
            1 <= s,
    ;
}

/// A synthesis step touches `j` exactly when its index lies in the integer
/// interval `[(j - block_size) / synth_hop + 1, j / synth_hop]`.
proof fn lemma_covers_iff(s: int, bs: int, t: int, j: int)
    requires
        1 <= s,
        1 <= bs,
    ensures
        step_covers(s, bs, t, j) <==> ((j - bs) / s + 1 <= t && t <= j / s),
{
    lemma_le_div_iff(j, t, s);
    lemma_le_div_iff(j - bs, t, s);
}

/// The covering interval holds at most `block_size / synth_hop + 1` steps.
proof fn lemma_div_diff_le(j: int, bs: int, s: int)
    requires
        1 <= s,
        1 <= bs,
    ensures
        j / s - (j - bs) / s <= bs / s + 1,
{
    let q1 = j / s;
    let r1 = j % s;
    let q2 = (j - bs) / s;
    let r2 = (j - bs) % s;
    let qb = bs / s;
    let rb = bs % s;
    vstd::arithmetic::div_mod::lemma_fundamental_div_mod(j, s);
    vstd::arithmetic::div_mod::lemma_mod_bound(j, s);
    vstd::arithmetic::div_mod::lemma_fundamental_div_mod(j - bs, s);
    vstd::arithmetic::div_mod::lemma_mod_bound(j - bs, s);
    vstd::arithmetic::div_mod::lemma_fundamental_div_mod(bs, s);
    vstd::arithmetic::div_mod::lemma_mod_bound(bs, s);
    assert(q1 - q2 <= qb + 1) by (nonlinear_arith)
        requires
            j == s * q1 + r1,
            j - bs == s * q2 + r2,
            bs == s * qb + rb,
            0 <= r1 < s,
            0 <= r2 < s,
            0 <= rb < s,
            1 <= s,
    ;
}

/// Cover counts are never negative.
proof fn lemma_cover_count_nonneg(s: int, bs: int, k: int, j: int)
    ensures
        0 <= cover_count(s, bs, k, j),
    decreases k,
{
    if k > 0 {
        lemma_cover_count_nonneg(s, bs, k - 1, j);
    }
}

/// The first `k` steps touch `j` at most `min(k, j/s + 1) - ((j-bs)/s + 1)`
/// times: touching steps form a sub-interval of `[0, k)`.
proof fn lemma_cover_count_interval(s: int, bs: int, k: int, j: int)
    requires
        1 <= s,
        1 <= bs,
        0 <= k,
    ensures
        cover_count(s, bs, k, j) <= vstd::math::max(
            0,
            vstd::math::min(k, j / s + 1) - ((j - bs) / s + 1),
        ),
    decreases k,
{
    if k > 0 {
        lemma_cover_count_interval(s, bs, k - 1, j);
        lemma_covers_iff(s, bs, k - 1, j);
    }
}

/// Multiplying both sides of an inequality by a nonnegative factor.
proof fn lemma_mul_le(a: int, b: int, c: int)
    requires
        a <= b,
        0 <= c,
    ensures
        a * c <= b * c,
{
    assert(a * c <= b * c) by (nonlinear_arith)
        requires
            a <= b,
            0 <= c,
    ;
}

/// No output index is ever touched by more than
/// `block_size / synth_hop + 1` synthesis steps.
proof fn lemma_cover_count_le_all(s: int, bs: int, k: int, j: int)
    requires
        1 <= s,
        1 <= bs,
        0 <= k,
    ensures
        0 <= cover_count(s, bs, k, j) <= bs / s + 1 <= bs + 1,
{
    lemma_cover_count_nonneg(s, bs, k, j);
    lemma_cover_count_interval(s, bs, k, j);
    lemma_div_diff_le(j, bs, s);
    assert(0 <= bs / s <= bs) by {
        vstd::arithmetic::div_mod::lemma_fundamental_div_mod(bs, s);
        vstd::arithmetic::div_mod::lemma_mod_bound(bs, s);
        assert(bs == s * (bs / s) + bs % s && 0 <= bs % s < s ==> 0 <= bs / s <= bs)
            by (nonlinear_arith)
            requires
                1 <= s,
                1 <= bs,
        ;
    }
}

/// Every overlap-add accumulation is bounded by the number of steps that
/// touched it, times the largest magnitude of one weighted sample.
proof fn lemma_ola_val_bound(w: Seq<int>, input: Seq<int>, hop: int, s: int, k: int, j: int)
    requires
        1 <= s,
        1 <= hop,
        1 <= w.len(),
        window_in_range(w),
        forall|i: int| 0 <= i < input.len() ==> -SAMPLE_LIMIT <= #[trigger] input[i] <= SAMPLE_LIMIT,
        0 <= k,
        k >= 1 ==> (k - 1) * hop + w.len() <= input.len(),
    ensures
        -(cover_count(s, w.len() as int, k, j) * (SAMPLE_LIMIT * WINDOW_ONE)) <= ola_val(
            w,
            input,
            hop,
            s,
            k,
            j,
        ) <= cover_count(s, w.len() as int, k, j) * (SAMPLE_LIMIT * WINDOW_ONE),
    decreases k,
{
    let bs = w.len() as int;
    let m = SAMPLE_LIMIT * WINDOW_ONE;
    if k > 0 {
        assert((k - 2) * hop + w.len() <= (k - 1) * hop + w.len()) by (nonlinear_arith)
            requires
                1 <= hop,
        ;
        lemma_ola_val_bound(w, input, hop, s, k - 1, j);
        let t = k - 1;
        if step_covers(s, bs, t, j) {
            let off = j - t * s;
            let idx = t * hop + off;
            assert(0 <= off < bs);
            assert(0 <= idx < input.len()) by {
                assert(t * hop >= 0) by (nonlinear_arith)
                    requires
                        t >= 0,
                        hop >= 1,
                ;
            }
            assert(-m <= input[idx] * w[off] <= m) by (nonlinear_arith)
                requires
                    -SAMPLE_LIMIT <= input[idx] <= SAMPLE_LIMIT,
                    0 <= w[off] <= WINDOW_ONE,
                    m == SAMPLE_LIMIT * WINDOW_ONE,
            ;
            assert(cover_count(s, bs, k, j) * m == cover_count(s, bs, t, j) * m + m)
                by (nonlinear_arith)
                requires
                    cover_count(s, bs, k, j) == cover_count(s, bs, t, j) + 1,
            ;
        }
    }
}

/// The accumulation after `k` steps reads input indices below
/// `(k - 1) * hop + block_size` only, so extending the input later does not
/// change it.
proof fn lemma_ola_val_prefix(
    w: Seq<int>,
    in1: Seq<int>,
    in2: Seq<int>,
    hop: int,
    s: int,
    k: int,
    j: int,
)
    requires
        1 <= s,
        1 <= hop,
        in1.len() <= in2.len(),
        forall|i: int| 0 <= i < in1.len() ==> #[trigger] in1[i] == in2[i],
        k >= 1 ==> (k - 1) * hop + w.len() <= in1.len(),
    ensures
        ola_val(w, in1, hop, s, k, j) == ola_val(w, in2, hop, s, k, j),
    decreases k,
{
    if k > 0 {
        assert((k - 2) * hop + w.len() <= (k - 1) * hop + w.len()) by (nonlinear_arith)
            requires
                1 <= hop,
        ;
        lemma_ola_val_prefix(w, in1, in2, hop, s, k - 1, j);
        let t = k - 1;
        let bs = w.len() as int;
        if step_covers(s, bs, t, j) {
            let idx = t * hop + (j - t * s);
            assert(0 <= idx < in1.len()) by {
                assert(t * hop >= 0) by (nonlinear_arith)
                    requires
                        t >= 0,
                        hop >= 1,
                ;
            }
            assert(in1[idx] == in2[idx]);
        }
    }
}

/// Indices past the output length have received no contribution yet.
proof fn lemma_ola_val_zero_beyond(
    w: Seq<int>,
    input: Seq<int>,
    hop: int,
    s: int,
    k: int,
    j: int,
)
    requires
        1 <= s,
        0 <= k,
        j >= out_len_of(k, w.len() as int, s),
    ensures
        ola_val(w, input, hop, s, k, j) == 0,
    decreases k,
{
    if k > 0 {
        assert((k - 2) * s <= (k - 1) * s) by (nonlinear_arith)
            requires
                1 <= s,
        ;
        lemma_ola_val_zero_beyond(w, input, hop, s, k - 1, j);
    }
}

/// A step leaves output indices below its own span untouched.
proof fn lemma_ola_val_stable_below(
    w: Seq<int>,
    input: Seq<int>,
    hop: int,
    s: int,
    k1: int,
    k2: int,
    j: int,
)
    requires
        0 <= k1 <= k2,
        j < k1 * s,
        1 <= s,
    ensures
        ola_val(w, input, hop, s, k2, j) == ola_val(w, input, hop, s, k1, j),
    decreases k2 - k1,
{
    if k2 > k1 {
        lemma_ola_val_stable_below(w, input, hop, s, k1, k2 - 1, j);
        assert(k1 * s <= (k2 - 1) * s) by (nonlinear_arith)
            requires
                k1 <= k2 - 1,
                1 <= s,
        ;
        assert(!step_covers(s, w.len() as int, k2 - 1, j));
    }
}

/// The output length grows with the step count.
proof fn lemma_out_len_monotone(k1: int, k2: int, bs: int, s: int)
    requires
        0 <= k1 <= k2,
        0 <= s,
        0 <= bs,
    ensures
        out_len_of(k1, bs, s) <= out_len_of(k2, bs, s),
{
    assert((k1 - 1) * s <= (k2 - 1) * s) by (nonlinear_arith)
        requires
            k1 <= k2,
            0 <= s,
    ;
}

/// The boundary never outruns the output buffer while `synth_hop` stays
/// within the window length.
proof fn lemma_boundary_le_out_len(k: int, bs: int, s: int)
    requires
        0 <= k,
        1 <= s <= bs,
    ensures
        k * s <= out_len_of(k, bs, s),
{
    if k > 0 {
        assert(k * s == (k - 1) * s + s) by (nonlinear_arith);
    }
}

/// More input never undoes a completed synthesis step.
proof fn lemma_steps_monotone(l1: int, l2: int, bs: int, hop: int)
    requires
        l1 <= l2,
        1 <= hop,
        1 <= bs,
    ensures
        steps_of(l1, bs, hop) <= steps_of(l2, bs, hop),
        0 <= steps_of(l1, bs, hop),
{
    if l1 >= bs {
        vstd::arithmetic::div_mod::lemma_div_is_ordered(l1 - bs, l2 - bs, hop);
        vstd::arithmetic::div_mod::lemma_div_pos_is_pos(l1 - bs, hop);
    } else if l2 >= bs {
        vstd::arithmetic::div_mod::lemma_div_pos_is_pos(l2 - bs, hop);
    }
}

/// With `hop <= block_size`, the analysis cursor stays within the input.
proof fn lemma_steps_cursor_in_input(l: int, bs: int, hop: int)
    requires
        1 <= hop <= bs,
        0 <= l,
    ensures
        steps_of(l, bs, hop) * hop <= l,
        steps_of(l, bs, hop) >= 1 ==> (steps_of(l, bs, hop) - 1) * hop + bs <= l,
{
    if l >= bs {
        let k = steps_of(l, bs, hop);
        let q = (l - bs) / hop;
        vstd::arithmetic::div_mod::lemma_fundamental_div_mod(l - bs, hop);
        vstd::arithmetic::div_mod::lemma_mod_bound(l - bs, hop);
        assert(q * hop <= l - bs) by (nonlinear_arith)
            requires
                l - bs == hop * q + (l - bs) % hop,
                0 <= (l - bs) % hop,
        ;
        assert(k * hop == q * hop + hop) by (nonlinear_arith)
            requires
                k == q + 1,
        ;
    }
}

/// Exact shape of the accumulation under scaling factor one: with the
/// synthesis hop equal to the analysis hop and a 50%-overlap window, each
/// index is, in order, still untouched, covered once by the newest window,
/// covered twice (the settled region), or inside the fade-in head covered
/// only by the first window.
proof fn lemma_identity_shape(w: Seq<int>, input: Seq<int>, h: int, k: int, j: int)
    requires
        1 <= h,
        w.len() == 2 * h,
        window_halves_complementary(w, h),
        0 <= k,
        k >= 1 ==> (k - 1) * h + 2 * h <= input.len(),
        0 <= j,
    ensures
        k == 0 ==> ola_val(w, input, h, h, k, j) == 0,
        k >= 1 && j < h ==> ola_val(w, input, h, h, k, j) == input[j] * w[j],
        k >= 1 && h <= j < k * h ==> ola_val(w, input, h, h, k, j) == input[j] * WINDOW_ONE,
        k >= 1 && k * h <= j < k * h + h ==> ola_val(w, input, h, h, k, j) == input[j] * w[j - (k
            - 1) * h],
        j >= k * h + h ==> ola_val(w, input, h, h, k, j) == 0,
    decreases k,
{
    if k >= 1 {
        assert((k - 1) * h + h == k * h) by (nonlinear_arith);
        assert(k * h + h == (k + 1) * h) by (nonlinear_arith);
        assert((k - 2) * h + h == (k - 1) * h) by (nonlinear_arith);
        assert(k >= 1 ==> h <= k * h) by (nonlinear_arith)
            requires
                1 <= h,
        ;
        assert(k >= 2 ==> 2 * h <= k * h) by (nonlinear_arith)
            requires
                1 <= h,
        ;
        lemma_identity_shape(w, input, h, k - 1, j);
        let t = k - 1;
        if step_covers(h, 2 * h, t, j) {
            let off = j - t * h;
            assert(t * h + off == j);
            assert(step_term(w, input, h, h, t, j) == input[j] * w[off]);
            if k * h <= j {
                assert(off >= h);
            } else if j >= h {
                if t == 0 {
                    assert(h <= j < h);
                } else {
                    let r = j - t * h;
                    assert(0 <= r < h);
                    assert(j - (t - 1) * h == r + h);
                    assert(w[r] + w[r + h] == WINDOW_ONE);
                    assert(input[j] * w[r + h] + input[j] * w[r] == input[j] * (w[r] + w[r + h]))
                        by (nonlinear_arith);
                }
            }
        } else {
            assert(j < t * h || j >= t * h + 2 * h);
        }
    }
}

/// Identity stretch: with synthesis hop equal to analysis hop (a scaling
/// factor of one) and a complementary 50%-overlap window, every settled
/// output sample past the fade-in head equals its input sample scaled by
/// the fixed-point unit weight, on any channel.
pub proof fn lemma_identity_stretch(w: Seq<int>, input: Seq<int>, hop: int, k: int, j: int)
    requires
        1 <= hop,
        w.len() == 2 * hop,
        window_halves_complementary(w, hop),
        1 <= k,
        (k - 1) * hop + 2 * hop <= input.len(),
        hop <= j < k * hop,
    ensures
        ola_val(w, input, hop, hop, k, j) == input[j] * WINDOW_ONE,
{
    lemma_identity_shape(w, input, hop, k, j);
}

/// Overlap-add gain preservation: a constant-amplitude input through the
/// engine at 50% overlap and scaling factor one keeps exactly its
/// amplitude on the settled region, with no periodic gain ripple.
pub proof fn lemma_constant_gain(
    w: Seq<int>,
    input: Seq<int>,
    hop: int,
    k: int,
    j: int,
    amp: int,
)
    requires
        1 <= hop,
        w.len() == 2 * hop,
        window_halves_complementary(w, hop),
        forall|i: int| 0 <= i < input.len() ==> #[trigger] input[i] == amp,
        1 <= k,
        (k - 1) * hop + 2 * hop <= input.len(),
        hop <= j < k * hop,
    ensures
        ola_val(w, input, hop, hop, k, j) == amp * WINDOW_ONE,
{
    lemma_identity_stretch(w, input, hop, k, j);
    assert(k * hop < (k - 1) * hop + 2 * hop) by (nonlinear_arith)
        requires
            1 <= hop,
    ;
    assert(input[j] == amp);
}

/// Output length scaling: an input of `n` samples, `n` a multiple of the
/// window length `2 * hop`, settles exactly `n / hop - 1` synthesis steps,
/// so the output boundary after a full drain of the input falls exactly
/// one synthesis hop short of the scaled input length `(n / hop) * s`.
pub proof fn lemma_output_length_scaling(n: int, hop: int, s: int)
    requires
        1 <= hop,
        1 <= s,
        n >= 2 * hop,
        n % (2 * hop) == 0,
    ensures
        steps_of(n, 2 * hop, hop) == n / hop - 1,
        steps_of(n, 2 * hop, hop) * s == (n / hop) * s - s,
{
    vstd::arithmetic::div_mod::lemma_fundamental_div_mod(n, 2 * hop);
    let q = n / (2 * hop);
    assert(n == (2 * q) * hop && n - 2 * hop == (2 * q - 2) * hop) by (nonlinear_arith)
        requires
            n == (2 * hop) * q,
    ;
    assert(1 <= q) by (nonlinear_arith)
        requires
            n == (2 * hop) * q,
            n >= 2 * hop,
            1 <= hop,
    ;
    vstd::arithmetic::div_mod::lemma_div_by_multiple(2 * q, hop);
    vstd::arithmetic::div_mod::lemma_div_by_multiple(2 * q - 2, hop);
    assert(steps_of(n, 2 * hop, hop) == 2 * q - 1);
    assert((2 * q - 1) * s == (2 * q) * s - s) by (nonlinear_arith);
}

/// One channel of one synthesis step: zero-extend the accumulation buffer
/// to hold a full window starting at `out_base`, then add the windowed
/// input segment starting at `in_base` into it, elementwise.
fn accumulate_window(
    out: &mut Vec<i64>,
    input: &Vec<i16>,
    window: &Vec<i64>,
    in_base: usize,
    out_base: usize,
)
    requires
        1 <= window@.len() <= BLOCK_SIZE_LIMIT,
        window_in_range(window@.map_values(|x: i64| x as int)),
        in_base + window@.len() <= input@.len(),
        out_base <= old(out)@.len() <= out_base + window@.len(),
        out_base + window@.len() <= usize::MAX,
        forall|j: int| 0 <= j < old(out)@.len() ==> -OUT_MAG <= #[trigger] old(out)@[j] <= OUT_MAG,
    ensures
        final(out)@.len() == out_base + window@.len(),
        forall|j: int| 0 <= j < out_base ==> final(out)@[j] == old(out)@[j],
        forall|j: int|
            out_base <= j < out_base + window@.len() ==> #[trigger] final(out)@[j] as int == (if j
                < old(out)@.len() {
                old(out)@[j] as int
            } else {
                0
            }) + (input@[in_base + j - out_base] as int) * (window@[j - out_base] as int),
{
    let need = out_base + window.len();
    while out.len() < need
        invariant
            old(out)@.len() <= out@.len() <= need,
            forall|j: int| 0 <= j < old(out)@.len() ==> out@[j] == old(out)@[j],
            forall|j: int| old(out)@.len() <= j < out@.len() ==> out@[j] == 0i64,
        decreases need - out@.len(),
    {
        out.push(0i64);
    }
    let ghost grown = out@;
    let input_len: usize = input.len();
    proof {
        assert(input@.len() == input_len as int);
    }
    let mut i: usize = 0;
    while i < window.len()
        invariant
            0 <= i <= window@.len(),
            need == out_base + window@.len(),
            in_base + window@.len() <= input@.len() <= usize::MAX,
            out_base <= old(out)@.len() <= need <= usize::MAX,
            window_in_range(window@.map_values(|x: i64| x as int)),
            out@.len() == need,
            grown.len() == need,
            forall|j: int| 0 <= j < old(out)@.len() ==> grown[j] == old(out)@[j],
            forall|j: int| old(out)@.len() <= j < need ==> grown[j] == 0i64,
            forall|j: int| 0 <= j < old(out)@.len() ==> -OUT_MAG <= #[trigger] old(out)@[j]
                <= OUT_MAG,
            forall|j: int| 0 <= j < out_base ==> #[trigger] out@[j] == grown[j],
            forall|j: int| out_base + i <= j < need ==> #[trigger] out@[j] == grown[j],
            forall|j: int|
                out_base <= j < out_base + i ==> #[trigger] out@[j] as int == grown[j] as int + (
                input@[in_base + j - out_base] as int) * (window@[j - out_base] as int),
        decreases window@.len() - i,
    {
        let sample = input[in_base + i];
        let wv = window[i];
        proof {
            assert(0 <= window@.map_values(|x: i64| x as int)[i as int] <= WINDOW_ONE);
            assert(-0x4000_0000 <= (sample as int) * (wv as int) <= 0x4000_0000)
                by (nonlinear_arith)
                requires
                    -32768 <= sample as int <= 32767,
                    0 <= wv as int <= 32768,
            ;
        }
        let prod = (sample as i64) * wv;
        let idx = out_base + i;
        let cur = out[idx];
        proof {
            assert(out@[idx as int] == grown[idx as int]);
            assert(-OUT_MAG <= cur <= OUT_MAG);
        }
        out[idx] = cur + prod;
        i = i + 1;
    }
}

/// Stateful windowed overlap-add time-stretcher.
///
/// Input samples accumulate in per-channel buffers; whenever a full analysis
/// window is available, it is weighted by the window table and added into
/// the output accumulation buffer at the synthesis cursor. The analysis
/// cursor advances by `hop` per step, the synthesis cursor by `synth_hop`,
/// which stretches elapsed time by `synth_hop / hop` while leaving each
/// window's content unchanged.
pub struct TimeScaler {
    block_size: usize,
    hop: usize,
    synth_hop: usize,
    channels: usize,
    window: Vec<i64>,
    in_buf: Vec<Vec<i16>>,
    out_buf: Vec<Vec<i64>>,
    next_input_idx: usize,
    next_output_idx: usize,
}

impl TimeScaler {
    /// Analysis window length.
    pub closed spec fn block_size(self) -> int {
        self.block_size as int
    }

    /// Analysis advance per synthesis step.
    pub closed spec fn hop(self) -> int {
        self.hop as int
    }

    /// Synthesis advance per synthesis step: `floor(hop * scaling_factor)`.
    pub closed spec fn synth_hop(self) -> int {
        self.synth_hop as int
    }

    /// Number of channels, fixed at construction.
    pub closed spec fn channels(self) -> int {
        self.channels as int
    }

    /// The window table, as mathematical integers.
    pub closed spec fn win(self) -> Seq<int> {
        self.window@.map_values(|x: i64| x as int)
    }

    /// All input samples ever pushed on channel `c`, as integers.
    pub closed spec fn input(self, c: int) -> Seq<int> {
        self.in_buf@[c]@.map_values(|x: i16| x as int)
    }

    /// Number of input samples pushed so far on each channel.
    pub closed spec fn in_len(self) -> int {
        self.in_buf@[0]@.len() as int
    }

    /// Synthesis steps completed so far.
    pub open spec fn steps(self) -> int {
        steps_of(self.in_len(), self.block_size(), self.hop())
    }

    /// The output boundary: count of finalized, not-yet-emitted samples.
    pub closed spec fn boundary(self) -> int {
        self.next_output_idx as int
    }

    /// Count of output samples already emitted by `pop_frames`.
    pub open spec fn emitted(self) -> int {
        self.steps() * self.synth_hop() - self.boundary()
    }

    /// The not-yet-emitted part of the output accumulation buffer on
    /// channel `c`, as integers. Entries below `boundary()` are final;
    /// entries above are partial sums still awaiting overlaps.
    pub closed spec fn out_seq(self, c: int) -> Seq<int> {
        self.out_buf@[c]@.map_values(|x: i64| x as int)
    }

    /// Synthesis steps matching the analysis cursor; equals `steps()`
    /// except transiently inside a push.
    spec fn processed(self) -> int {
        self.next_input_idx as int / self.hop as int
    }

    /// Structural well-formedness, with the cursors at `k` completed steps.
    spec fn wf_at(self, k: int) -> bool {
        &&& 0 < self.hop < self.block_size <= BLOCK_SIZE_LIMIT
        &&& 1 <= self.synth_hop <= self.block_size
        &&& 1 <= self.channels
        &&& self.window@.len() == self.block_size
        &&& window_in_range(self.win())
        &&& self.in_buf@.len() == self.channels
        &&& self.out_buf@.len() == self.channels
        &&& forall|c: int|
            0 <= c < self.channels ==> (#[trigger] self.in_buf@[c])@.len() == self.in_len()
        &&& 0 <= k <= self.steps()
        &&& self.next_input_idx == k * self.hop
        &&& self.next_input_idx as int <= self.in_len()
        &&& 0 <= self.next_output_idx <= k * self.synth_hop
        &&& forall|c: int|
            0 <= c < self.channels ==> (#[trigger] self.out_buf@[c])@.len() == out_len_of(
                k,
                self.block_size(),
                self.synth_hop(),
            ) - (k * self.synth_hop() - self.boundary())
        &&& forall|c: int, j: int|
            0 <= c < self.channels && 0 <= j < self.out_buf@[c]@.len()
                ==> #[trigger] self.out_buf@[c]@[j] as int == ola_val(
                self.win(),
                self.input(c),
                self.hop(),
                self.synth_hop(),
                k,
                j + (k * self.synth_hop() - self.boundary()),
            )
    }

    /// The engine's invariant between public calls: well-formed, with every
    /// available synthesis step performed.
    pub closed spec fn wf(self) -> bool {
        self.wf_at(self.steps())
    }

    /// Whether `n` more input samples per channel can be absorbed without
    /// the output accumulation buffer outgrowing `usize`.
    pub open spec fn can_push(self, n: int) -> bool {
        out_len_of(
            steps_of(self.in_len() + n, self.block_size(), self.hop()),
            self.block_size(),
            self.synth_hop(),
        ) <= usize::MAX
    }

    /// Construct an engine. `synth_hop` is the synthesis advance
    /// `floor(hop * scaling_factor)`; a `synth_hop` above `block_size`
    /// would finalize output samples that no window has written yet, and a
    /// zero one would never finalize any, so both are excluded. `window`
    /// holds fixed-point coefficients in `[0, WINDOW_ONE]`.
    pub fn new(
        block_size: usize,
        hop: usize,
        synth_hop: usize,
        channels: usize,
        window: Vec<i64>,
    ) -> (r: TimeScaler)
        requires
            0 < hop < block_size <= BLOCK_SIZE_LIMIT,
            1 <= synth_hop <= block_size,
            1 <= channels,
            window@.len() == block_size,
            window_in_range(window@.map_values(|x: i64| x as int)),
        ensures
            r.wf(),
            r.block_size() == block_size,
            r.hop() == hop,
            r.synth_hop() == synth_hop,
            r.channels() == channels,
            r.win() == window@.map_values(|x: i64| x as int),
            r.in_len() == 0,
            r.boundary() == 0,
            r.emitted() == 0,
            forall|c: int| 0 <= c < channels ==> #[trigger] r.input(c) == Seq::<int>::empty(),
            forall|c: int| 0 <= c < channels ==> #[trigger] r.out_seq(c) == Seq::<int>::empty(),
    {
        let mut in_buf: Vec<Vec<i16>> = Vec::new();
        let mut out_buf: Vec<Vec<i64>> = Vec::new();
        let mut c: usize = 0;
        while c < channels
            invariant
                0 <= c <= channels,
                in_buf@.len() == c,
                out_buf@.len() == c,
                forall|i: int| 0 <= i < c ==> (#[trigger] in_buf@[i])@.len() == 0,
                forall|i: int| 0 <= i < c ==> (#[trigger] out_buf@[i])@.len() == 0,
            decreases channels - c,
        {
            in_buf.push(Vec::new());
            out_buf.push(Vec::new());
            c = c + 1;
        }
        let r = TimeScaler {
            block_size,
            hop,
            synth_hop,
            channels,
            window,
            in_buf,
            out_buf,
            next_input_idx: 0,
            next_output_idx: 0,
        };
        proof {
            assert(r.steps() == 0);
            assert forall|ch: int| 0 <= ch < channels implies #[trigger] r.input(ch)
                == Seq::<int>::empty() by {
                assert(r.in_buf@[ch]@.len() == 0);
                assert(r.input(ch).len() == 0);
                assert(r.input(ch) =~= Seq::<int>::empty());
            }
            assert forall|ch: int| 0 <= ch < channels implies #[trigger] r.out_seq(ch)
                == Seq::<int>::empty() by {
                assert(r.out_buf@[ch]@.len() == 0);
                assert(r.out_seq(ch) =~= Seq::<int>::empty());
            }
        }
        r
    }

    /// Fields a synthesis step leaves untouched.
    spec fn frozen_eq(self, other: TimeScaler) -> bool {
        &&& self.block_size == other.block_size
        &&& self.hop == other.hop
        &&& self.synth_hop == other.synth_hop
        &&& self.channels == other.channels
        &&& self.window == other.window
        &&& self.in_buf == other.in_buf
    }

    /// Pushed samples are 16-bit, so their integer view is bounded.
    proof fn lemma_input_range(self, c: int)
        requires
            0 <= c < self.in_buf@.len(),
        ensures
            forall|i: int|
                0 <= i < self.input(c).len() ==> -SAMPLE_LIMIT <= #[trigger] self.input(c)[i]
                    <= SAMPLE_LIMIT,
    {
        assert forall|i: int| 0 <= i < self.input(c).len() implies -SAMPLE_LIMIT
            <= #[trigger] self.input(c)[i] <= SAMPLE_LIMIT by {
            assert(self.input(c)[i] == self.in_buf@[c]@[i] as int);
        }
    }

    /// Run every synthesis step the buffered input allows: while a full
    /// analysis window lies past the input cursor, weight it by the window
    /// table, add it into the output accumulation buffer at the synthesis
    /// cursor, and advance both cursors.
    fn process_available_frames(&mut self)
        requires
            old(self).wf_at(old(self).processed()),
            out_len_of(old(self).steps(), old(self).block_size(), old(self).synth_hop())
                <= usize::MAX,
        ensures
            final(self).wf(),
            final(self).frozen_eq(*old(self)),
            final(self).steps() * final(self).synth_hop() - final(self).boundary() == old(
                self,
            ).processed() * old(self).synth_hop() - old(self).boundary(),
    {
        let ghost orig = *old(self);
        let ghost em = orig.processed() * orig.synth_hop() - orig.boundary();
        while self.in_buf[0].len() - self.next_input_idx >= self.block_size
            invariant
                self.wf_at(self.processed()),
                self.frozen_eq(orig),
                out_len_of(self.steps(), self.block_size(), self.synth_hop()) <= usize::MAX,
                self.processed() * self.synth_hop() - self.boundary() == em,
            decreases self.in_len() - self.next_input_idx,
        {
            let ghost pre = *self;
            let ghost t = pre.processed();
            let ghost bs = pre.block_size();
            let ghost h = pre.hop();
            let ghost s = pre.synth_hop();
            let ghost w = pre.win();
            let ghost em_cur = t * s - pre.boundary();
            proof {
                assert(t * h + bs <= pre.in_len());
                lemma_le_div_iff(pre.in_len() - bs, t, h);
                assert(t + 1 <= pre.steps());
                lemma_out_len_monotone(t + 1, pre.steps(), bs, s);
                assert((t + 1) * s == t * s + s) by (nonlinear_arith);
                assert((t + 1) * h == t * h + h) by (nonlinear_arith);
                assert(t >= 1 ==> (t - 1) * s <= t * s) by (nonlinear_arith)
                    requires
                        s >= 0,
                ;
                assert(t >= 1 ==> (t - 1) * h + bs <= t * h + bs) by (nonlinear_arith)
                    requires
                        h >= 0,
                ;
            }
            let need = self.next_output_idx + self.block_size;
            let mut c: usize = 0;
            while c < self.channels
                invariant
                    self.frozen_eq(pre),
                    self.next_input_idx == pre.next_input_idx,
                    self.next_output_idx == pre.next_output_idx,
                    pre.wf_at(t),
                    t == pre.processed(),
                    t + 1 <= pre.steps(),
                    t * h + bs <= pre.in_len(),
                    bs == pre.block_size(),
                    h == pre.hop(),
                    s == pre.synth_hop(),
                    w == pre.win(),
                    em_cur == t * s - pre.boundary(),
                    need == pre.boundary() + bs,
                    need <= usize::MAX,
                    0 <= c <= self.channels,
                    self.out_buf@.len() == pre.out_buf@.len(),
                    forall|ch: int|
                        c <= ch < self.channels ==> #[trigger] self.out_buf@[ch]
                            == pre.out_buf@[ch],
                    forall|ch: int|
                        0 <= ch < c ==> (#[trigger] self.out_buf@[ch])@.len() == need,
                    forall|ch: int, j: int|
                        0 <= ch < c && 0 <= j < need
                            ==> #[trigger] self.out_buf@[ch]@[j] as int == ola_val(
                            w,
                            pre.input(ch),
                            h,
                            s,
                            t + 1,
                            j + em_cur,
                        ),
                decreases self.channels - c,
            {
                let ghost old_len = pre.out_buf@[c as int]@.len() as int;
                proof {
                    assert(self.out_buf@[c as int] == pre.out_buf@[c as int]);
                    assert(old_len == out_len_of(t, bs, s) - em_cur);
                    assert(0 <= em_cur);
                    assert((t + 1) * s == t * s + s) by (nonlinear_arith);
                    assert(t >= 1 ==> t * s <= (t - 1) * s + bs) by (nonlinear_arith)
                        requires
                            s <= bs,
                    ;
                    assert(t >= 1 ==> (t - 1) * s <= t * s) by (nonlinear_arith)
                        requires
                            s >= 0,
                    ;
                    assert(t >= 1 ==> (t - 1) * h + bs <= t * h + bs) by (nonlinear_arith)
                        requires
                            h >= 0,
                    ;
                    lemma_boundary_le_out_len(t, bs, s);
                    assert(t == 0 ==> t * s == 0) by (nonlinear_arith);
                    assert(t * s <= out_len_of(t, bs, s));
                    assert(out_len_of(t, bs, s) <= t * s + bs);
                    assert(pre.boundary() == t * s - em_cur);
                    assert(pre.boundary() <= old_len);
                    assert(old_len <= need);
                    pre.lemma_input_range(c as int);
                    assert forall|j: int| 0 <= j < self.out_buf@[c as int]@.len() implies -OUT_MAG
                        <= #[trigger] self.out_buf@[c as int]@[j] <= OUT_MAG by {
                        lemma_cover_count_le_all(s, bs, t, j + em_cur);
                        lemma_ola_val_bound(w, pre.input(c as int), h, s, t, j + em_cur);
                        lemma_mul_le(
                            cover_count(s, bs, t, j + em_cur),
                            bs + 1,
                            SAMPLE_LIMIT * WINDOW_ONE,
                        );
                    }
                }
                accumulate_window(
                    &mut self.out_buf[c],
                    &self.in_buf[c],
                    &self.window,
                    self.next_input_idx,
                    self.next_output_idx,
                );
                proof {
                    assert forall|j: int| 0 <= j < need implies #[trigger] self.out_buf@[
                        c as int]@[j] as int == ola_val(w, pre.input(c as int), h, s, t + 1, j
                        + em_cur) by {
                        let j_abs = j + em_cur;
                        assert(ola_val(w, pre.input(c as int), h, s, t + 1, j_abs) == ola_val(
                            w,
                            pre.input(c as int),
                            h,
                            s,
                            t,
                            j_abs,
                        ) + step_term(w, pre.input(c as int), h, s, t, j_abs));
                        if 0 <= j < old_len {
                            assert(pre.out_buf@[c as int]@[j] as int == ola_val(
                                w,
                                pre.input(c as int),
                                h,
                                s,
                                t,
                                j_abs,
                            ));
                        }
                        if j < pre.boundary() {
                            assert(j_abs < t * s);
                            assert(!step_covers(s, bs, t, j_abs));
                            assert(self.out_buf@[c as int]@[j] == pre.out_buf@[c as int]@[j]);
                        } else {
                            assert(t * s <= j_abs < t * s + bs);
                            assert(step_covers(s, bs, t, j_abs));
                            let off = j - pre.boundary();
                            assert(j_abs - t * s == off);
                            assert(step_term(w, pre.input(c as int), h, s, t, j_abs) == pre.input(
                                c as int,
                            )[t * h + off] * w[off]);
                            assert(pre.input(c as int)[t * h + off] == pre.in_buf@[c as int]@[t * h
                                + off] as int);
                            assert(w[off] == pre.window@[off] as int);
                            assert(self.out_buf@[c as int]@[j] as int == (if j < old_len {
                                pre.out_buf@[c as int]@[j] as int
                            } else {
                                0
                            }) + (pre.in_buf@[c as int]@[t * h + off] as int) * (
                            pre.window@[off] as int));
                            if j >= old_len {
                                lemma_ola_val_zero_beyond(w, pre.input(c as int), h, s, t, j_abs);
                            }
                        }
                    }
                }
                c = c + 1;
            }
            proof {
                lemma_steps_cursor_in_input(pre.in_len(), bs, h);
                lemma_mul_le(t + 1, pre.steps(), h);
                lemma_boundary_le_out_len(t + 1, bs, s);
                assert((t + 1) * s == t * s + s) by (nonlinear_arith);
                assert((t + 1) * h == t * h + h) by (nonlinear_arith);
            }
            self.next_input_idx = self.next_input_idx + self.hop;
            self.next_output_idx = self.next_output_idx + self.synth_hop;
            proof {
                vstd::arithmetic::div_mod::lemma_div_by_multiple(t + 1, h);
                assert(self.processed() == t + 1);
                assert(self.wf_at(t + 1));
            }
        }
        proof {
            let k = self.processed();
            if k < self.steps() {
                lemma_steps_cursor_in_input(self.in_len(), self.block_size(), self.hop());
                lemma_mul_le(k, self.steps() - 1, self.hop());
                assert(false);
            }
        }
    }

    /// Append one block of samples to every channel's input buffer, then
    /// perform every synthesis step the new input allows. The block must
    /// hold one sequence per channel, all of one length; a block shorter
    /// than `block_size` marks the end of the stream.
    pub fn push_block(&mut self, block: &Vec<Vec<i16>>)
        requires
            old(self).wf(),
            block@.len() == old(self).channels(),
            forall|c: int|
                0 <= c < block@.len() ==> (#[trigger] block@[c])@.len() == block@[0]@.len(),
            old(self).can_push(block@[0]@.len() as int),
        ensures
            final(self).wf(),
            final(self).block_size() == old(self).block_size(),
            final(self).hop() == old(self).hop(),
            final(self).synth_hop() == old(self).synth_hop(),
            final(self).channels() == old(self).channels(),
            final(self).win() == old(self).win(),
            final(self).in_len() == old(self).in_len() + block@[0]@.len(),
            forall|c: int|
                0 <= c < old(self).channels() ==> #[trigger] final(self).input(c) == old(
                    self,
                ).input(c) + block@[c]@.map_values(|x: i16| x as int),
            final(self).emitted() == old(self).emitted(),
            final(self).boundary() == final(self).steps() * final(self).synth_hop() - old(
                self,
            ).emitted(),
            forall|c: int|
                0 <= c < old(self).channels() ==> (#[trigger] final(self).out_seq(c)).len()
                    == out_len_of(
                    final(self).steps(),
                    final(self).block_size(),
                    final(self).synth_hop(),
                ) - final(self).emitted(),
            forall|c: int, j: int|
                0 <= c < old(self).channels() && 0 <= j < final(self).out_seq(c).len()
                    ==> #[trigger] final(self).out_seq(c)[j] == ola_val(
                    final(self).win(),
                    final(self).input(c),
                    final(self).hop(),
                    final(self).synth_hop(),
                    final(self).steps(),
                    j + final(self).emitted(),
                ),
    {
        let ghost orig = *old(self);
        let mut c: usize = 0;
        while c < self.channels
            invariant
                self.block_size == orig.block_size,
                self.hop == orig.hop,
                self.synth_hop == orig.synth_hop,
                self.channels == orig.channels,
                self.window == orig.window,
                self.out_buf == orig.out_buf,
                self.next_input_idx == orig.next_input_idx,
                self.next_output_idx == orig.next_output_idx,
                orig.wf(),
                block@.len() == orig.channels(),
                forall|i: int|
                    0 <= i < block@.len() ==> (#[trigger] block@[i])@.len() == block@[0]@.len(),
                0 <= c <= self.channels,
                self.in_buf@.len() == orig.in_buf@.len(),
                forall|ch: int|
                    c <= ch < self.channels ==> #[trigger] self.in_buf@[ch] == orig.in_buf@[ch],
                forall|ch: int|
                    0 <= ch < c ==> (#[trigger] self.in_buf@[ch])@ == orig.in_buf@[ch]@
                        + block@[ch]@,
            decreases self.channels - c,
        {
            self.in_buf[c].extend_from_slice(block[c].as_slice());
            proof {
                assert(self.in_buf@[c as int]@ =~= orig.in_buf@[c as int]@ + block@[c as int]@);
            }
            c = c + 1;
        }
        proof {
            let k0 = orig.steps();
            let h = orig.hop();
            let bs = orig.block_size();
            let s = orig.synth_hop();
            vstd::arithmetic::div_mod::lemma_div_by_multiple(k0, h);
            assert(self.processed() == k0);
            lemma_steps_monotone(orig.in_len(), self.in_len(), bs, h);
            lemma_steps_cursor_in_input(orig.in_len(), bs, h);
            assert forall|ch: int, j: int|
                0 <= ch < self.channels && 0 <= j
                    < self.out_buf@[ch]@.len() implies #[trigger] self.out_buf@[ch]@[j] as int
                == ola_val(
                self.win(),
                self.input(ch),
                h,
                s,
                k0,
                j + (k0 * s - self.boundary()),
            ) by {
                assert(orig.input(ch).len() <= self.input(ch).len());
                assert forall|i: int| 0 <= i < orig.input(ch).len() implies #[trigger] orig.input(
                    ch,
                )[i] == self.input(ch)[i] by {
                    assert(orig.input(ch)[i] == orig.in_buf@[ch]@[i] as int);
                    assert(self.in_buf@[ch]@[i] == orig.in_buf@[ch]@[i]);
                }
                lemma_ola_val_prefix(
                    orig.win(),
                    orig.input(ch),
                    self.input(ch),
                    h,
                    s,
                    k0,
                    j + (k0 * s - self.boundary()),
                );
            }
            assert(self.wf_at(self.processed()));
        }
        self.process_available_frames();
        proof {
            assert forall|ch: int| 0 <= ch < orig.channels() implies #[trigger] self.input(ch)
                == orig.input(ch) + block@[ch]@.map_values(|x: i16| x as int) by {
                assert(self.input(ch) =~= orig.input(ch) + block@[ch]@.map_values(
                    |x: i16| x as int,
                ));
            }
            assert forall|ch: int, j: int|
                0 <= ch < orig.channels() && 0 <= j < self.out_seq(ch).len() implies #[trigger] self
                .out_seq(ch)[j] == ola_val(
                self.win(),
                self.input(ch),
                self.hop(),
                self.synth_hop(),
                self.steps(),
                j + self.emitted(),
            ) by {
                assert(self.out_seq(ch)[j] == self.out_buf@[ch]@[j] as int);
            }
        }
    }

    /// Identity stretch, at the engine level: in an engine configured with
    /// scaling factor one (synthesis hop equal to analysis hop), 50%
    /// overlap and a complementary window, every finalized output sample
    /// past the fade-in head equals the input sample at the same index,
    /// scaled by the fixed-point unit weight — on every channel, before
    /// any frames have been emitted.
    pub proof fn lemma_identity(self, c: int, j: int)
        requires
            self.wf(),
            self.synth_hop() == self.hop(),
            self.block_size() == 2 * self.hop(),
            window_halves_complementary(self.win(), self.hop()),
            self.emitted() == 0,
            0 <= c < self.channels(),
            self.hop() <= j < self.boundary(),
        ensures
            self.out_seq(c)[j] == self.input(c)[j] * WINDOW_ONE,
    {
        let k = self.steps();
        let h = self.hop();
        lemma_boundary_le_out_len(k, self.block_size(), self.synth_hop());
        lemma_steps_cursor_in_input(self.in_len(), self.block_size(), h);
        assert(k >= 1) by {
            assert(k * h > 0);
            assert(k <= 0 ==> k * h <= 0) by (nonlinear_arith)
                requires
                    h >= 1,
            ;
        }
        assert((k - 1) * h + 2 * h == k * h + h) by (nonlinear_arith);
        assert(self.out_seq(c)[j] == self.out_buf@[c]@[j] as int);
        lemma_identity_stretch(self.win(), self.input(c), h, k, j);
    }

    /// Overlap-add gain preservation, at the engine level: a
    /// constant-amplitude input through an engine at 50% overlap and
    /// scaling factor one yields that same amplitude on every finalized
    /// sample past the fade-in head, with no periodic gain ripple.
    pub proof fn lemma_constant_amplitude(self, c: int, j: int, amp: int)
        requires
            self.wf(),
            self.synth_hop() == self.hop(),
            self.block_size() == 2 * self.hop(),
            window_halves_complementary(self.win(), self.hop()),
            self.emitted() == 0,
            0 <= c < self.channels(),
            forall|i: int| 0 <= i < self.input(c).len() ==> #[trigger] self.input(c)[i] == amp,
            self.hop() <= j < self.boundary(),
        ensures
            self.out_seq(c)[j] == amp * WINDOW_ONE,
    {
        self.lemma_identity(c, j);
        lemma_steps_cursor_in_input(self.in_len(), self.block_size(), self.hop());
        assert(j < self.steps() * self.hop() <= self.in_len());
    }

    /// Output length scaling, at the engine level: after pushing a whole
    /// number of analysis windows at 50% overlap and emitting nothing yet,
    /// the output boundary is exactly `(in_len / hop - 1)` synthesis hops:
    /// one synthesis hop short of the input length scaled by the engine's
    /// stretch ratio.
    pub proof fn lemma_output_length(self)
        requires
            self.wf(),
            self.block_size() == 2 * self.hop(),
            self.in_len() >= self.block_size(),
            self.in_len() % self.block_size() == 0,
            self.emitted() == 0,
        ensures
            self.boundary() == (self.in_len() / self.hop() - 1) * self.synth_hop(),
            (self.in_len() / self.hop()) * self.synth_hop() - self.boundary() == self.synth_hop(),
    {
        lemma_output_length_scaling(self.in_len(), self.hop(), self.synth_hop());
    }

    /// The analysis window length, as configured at construction.
    pub fn block_size_frames(&self) -> (r: usize)
        ensures
            r as int == self.block_size(),
    {
        self.block_size
    }

    /// How many finalized output frames are ready to emit.
    pub fn available_frames(&self) -> (r: usize)
        ensures
            r as int == self.boundary(),
    {
        self.next_output_idx
    }

    /// Emit the first `frames` finalized frames of every channel, removing
    /// them from the front of the output accumulation buffer. Fails with
    /// `InsufficientInputError` exactly when fewer than `frames` output
    /// samples are finalized; the engine is then left unchanged.
    pub fn pop_frames(&mut self, frames: usize) -> (r: Result<
        Vec<Vec<i64>>,
        InsufficientInputError,
    >)
        requires
            old(self).wf(),
        ensures
            final(self).wf(),
            final(self).block_size() == old(self).block_size(),
            final(self).hop() == old(self).hop(),
            final(self).synth_hop() == old(self).synth_hop(),
            final(self).channels() == old(self).channels(),
            final(self).win() == old(self).win(),
            final(self).in_len() == old(self).in_len(),
            forall|c: int|
                0 <= c < old(self).channels() ==> #[trigger] final(self).input(c) == old(
                    self,
                ).input(c),
            r is Err <==> old(self).boundary() < frames,
            r is Err ==> *final(self) == *old(self),
            r matches Ok(b) ==> {
                &&& b@.len() == old(self).channels()
                &&& forall|c: int| 0 <= c < b@.len() ==> (#[trigger] b@[c])@.len() == frames
                &&& forall|c: int|
                    0 <= c < b@.len() ==> (#[trigger] b@[c])@.map_values(|x: i64| x as int) == old(
                        self,
                    ).out_seq(c).take(frames as int)
                &&& forall|c: int|
                    0 <= c < old(self).channels() ==> #[trigger] final(self).out_seq(c) == old(
                        self,
                    ).out_seq(c).skip(frames as int)
                &&& final(self).boundary() == old(self).boundary() - frames
                &&& final(self).emitted() == old(self).emitted() + frames
            },
    {
        if self.next_output_idx < frames {
            return Err(InsufficientInputError);
        }
        let ghost orig = *old(self);
        let ghost k = orig.steps();
        proof {
            lemma_boundary_le_out_len(k, orig.block_size(), orig.synth_hop());
        }
        let mut popped: Vec<Vec<i64>> = Vec::new();
        let mut c: usize = 0;
        while c < self.channels
            invariant
                self.block_size == orig.block_size,
                self.hop == orig.hop,
                self.synth_hop == orig.synth_hop,
                self.channels == orig.channels,
                self.window == orig.window,
                self.in_buf == orig.in_buf,
                self.next_input_idx == orig.next_input_idx,
                self.next_output_idx == orig.next_output_idx,
                orig.wf(),
                k == orig.steps(),
                k * orig.synth_hop() <= out_len_of(k, orig.block_size(), orig.synth_hop()),
                frames <= orig.boundary(),
                0 <= c <= self.channels,
                popped@.len() == c,
                self.out_buf@.len() == orig.out_buf@.len(),
                forall|ch: int|
                    c <= ch < self.channels ==> #[trigger] self.out_buf@[ch] == orig.out_buf@[ch],
                forall|ch: int|
                    0 <= ch < c ==> (#[trigger] self.out_buf@[ch])@ == orig.out_buf@[ch]@.skip(
                        frames as int,
                    ),
                forall|ch: int|
                    0 <= ch < c ==> (#[trigger] popped@[ch])@ == orig.out_buf@[ch]@.take(
                        frames as int,
                    ),
            decreases self.channels - c,
        {
            proof {
                assert(self.out_buf@[c as int] == orig.out_buf@[c as int]);
                assert(orig.out_buf@[c as int]@.len() == out_len_of(
                    k,
                    orig.block_size(),
                    orig.synth_hop(),
                ) - (k * orig.synth_hop() - orig.boundary()));
                assert(frames <= orig.out_buf@[c as int]@.len());
            }
            let mut rest = self.out_buf[c].split_off(frames);
            core::mem::swap(&mut self.out_buf[c], &mut rest);
            popped.push(rest);
            c = c + 1;
        }
        self.next_output_idx = self.next_output_idx - frames;
        proof {
            assert forall|ch: int, j: int|
                0 <= ch < self.channels && 0 <= j
                    < self.out_buf@[ch]@.len() implies #[trigger] self.out_buf@[ch]@[j] as int
                == ola_val(
                self.win(),
                self.input(ch),
                self.hop(),
                self.synth_hop(),
                k,
                j + (k * self.synth_hop() - self.boundary()),
            ) by {
                assert(self.out_buf@[ch]@[j] == orig.out_buf@[ch]@[j + frames]);
                assert(orig.out_buf@[ch]@[j + frames] as int == ola_val(
                    orig.win(),
                    orig.input(ch),
                    orig.hop(),
                    orig.synth_hop(),
                    k,
                    (j + frames) + (k * orig.synth_hop() - orig.boundary()),
                ));
            }
            assert(self.wf_at(k));
            assert forall|ch: int| 0 <= ch < popped@.len() implies (#[trigger] popped@[
                ch])@.map_values(|x: i64| x as int) == orig.out_seq(ch).take(frames as int) by {
                assert(popped@[ch]@.map_values(|x: i64| x as int) =~= orig.out_seq(ch).take(
                    frames as int,
                ));
            }
            assert forall|ch: int| 0 <= ch < orig.channels() implies #[trigger] self.out_seq(ch)
                == orig.out_seq(ch).skip(frames as int) by {
                assert(self.out_seq(ch) =~= orig.out_seq(ch).skip(frames as int));
            }
        }
        Ok(popped)
    }

    /// Emit exactly one analysis window's worth of frames: the degenerate
    /// pop used when no downstream rate conversion is involved.
    pub fn pop_block(&mut self) -> (r: Result<Vec<Vec<i64>>, InsufficientInputError>)
        requires
            old(self).wf(),
        ensures
            final(self).wf(),
            final(self).block_size() == old(self).block_size(),
            final(self).hop() == old(self).hop(),
            final(self).synth_hop() == old(self).synth_hop(),
            final(self).channels() == old(self).channels(),
            final(self).win() == old(self).win(),
            final(self).in_len() == old(self).in_len(),
            forall|c: int|
                0 <= c < old(self).channels() ==> #[trigger] final(self).input(c) == old(
                    self,
                ).input(c),
            r is Err <==> old(self).boundary() < old(self).block_size(),
            r is Err ==> *final(self) == *old(self),
            r matches Ok(b) ==> {
                &&& b@.len() == old(self).channels()
                &&& forall|c: int|
                    0 <= c < b@.len() ==> (#[trigger] b@[c])@.len() == old(self).block_size()
                &&& forall|c: int|
                    0 <= c < b@.len() ==> (#[trigger] b@[c])@.map_values(|x: i64| x as int) == old(
                        self,
                    ).out_seq(c).take(old(self).block_size())
                &&& forall|c: int|
                    0 <= c < old(self).channels() ==> #[trigger] final(self).out_seq(c) == old(
                        self,
                    ).out_seq(c).skip(old(self).block_size())
                &&& final(self).boundary() == old(self).boundary() - old(self).block_size()
                &&& final(self).emitted() == old(self).emitted() + old(self).block_size()
            },
    {
        let frames = self.block_size;
        self.pop_frames(frames)
    }
}

} // verus!
