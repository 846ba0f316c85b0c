//! The word stream that a recorder writes for two channels, and the law that
//! reconstruction gives back exactly the values it sampled.
use vstd::prelude::*;
use vstd::arithmetic::div_mod::{
    lemma_fundamental_div_mod,
    lemma_fundamental_div_mod_converse_div,
    lemma_fundamental_div_mod_converse_mod,
    lemma_mod_bound,
};
use crate::add_signed::{saturating_apply_delta_spec, word_as_signed};
use crate::header::DataPacketHeader;
use crate::reconstruct::{Record, ceil_div, channel_rebuilt, page_sample_pos, running_counter};

verus! {

/// The values of a channel at the base indices it samples: every `r`-th,
/// starting at index 0.
pub open spec fn sampled(v: Seq<u32>, r: int) -> Seq<u32> {
    Seq::new(ceil_div(v.len() as int, r) as nat, |k: int| v[k * r])
}

/// The word that stores the difference from `prev` to `x`: the bit pattern
/// of the signed difference, that is the difference modulo 2^32.
pub open spec fn delta_word(prev: u32, x: u32) -> u32 {
    ((x - prev + 0x1_0000_0000) % 0x1_0000_0000int) as u32
}

/// The value before sample `k` of a channel: the previous sample, or 0.
pub open spec fn before(s: Seq<u32>, k: int) -> u32 {
    if k <= 0 {
        0
    } else {
        s[k - 1]
    }
}

/// The difference words of a channel's samples, the first taken from 0.
pub open spec fn delta_words(s: Seq<u32>) -> Seq<u32> {
    Seq::new(s.len(), |k: int| delta_word(before(s, k), s[k]))
}

/// Every sample differs from the one before it (0 for the first) by a value
/// that a signed 32-bit word holds.
pub open spec fn deltas_fit(s: Seq<u32>) -> bool {
    forall|k: int|
        0 <= k < s.len() ==> -0x8000_0000 <= #[trigger] s[k] - before(s, k) < 0x8000_0000
}

/// The stream for the first `i` base indices: at each index, the next word of
/// channel 0 if it samples there, then the next word of channel 1 if it does.
pub open spec fn interleaved(dp: Seq<u32>, dt: Seq<u32>, r0: int, r1: int, i: int) -> Seq<u32>
    decreases i,
{
    if i <= 0 {
        Seq::empty()
    } else {
        let j = i - 1;
        interleaved(dp, dt, r0, r1, j) + (if j % r0 == 0 {
            seq![dp[j / r0]]
        } else {
            Seq::empty()
        }) + (if j % r1 == 0 {
            seq![dt[j / r1]]
        } else {
            Seq::empty()
        })
    }
}

/// The stream a recorder writes for channels `p` and `t`, sampled every `r0`-th
/// and every `r1`-th of their common base indices, as difference words.
pub open spec fn recorded_stream(p: Seq<u32>, t: Seq<u32>, r0: int, r1: int) -> Seq<u32> {
    interleaved(delta_words(sampled(p, r0)), delta_words(sampled(t, r1)), r0, r1, p.len() as int)
}

proof fn lemma_div_unique(x: int, d: int, q: int)
    requires
        d > 0,
        q * d <= x < q * d + d,
    ensures
        x / d == q,
        x % d == x - q * d,
{
    lemma_fundamental_div_mod_converse_div(x, d, q, x - q * d);
    lemma_fundamental_div_mod_converse_mod(x, d, q, x - q * d);
}

proof fn lemma_ceil_zero(r: int)
    requires
        r > 0,
    ensures
        ceil_div(0, r) == 0,
{
    lemma_div_unique(r - 1, r, 0);
}

proof fn lemma_ceil_step(i: int, r: int)
    requires
        i >= 0,
        r > 0,
    ensures
        ceil_div(i + 1, r) == ceil_div(i, r) + (if i % r == 0 {
            1int
        } else {
            0int
        }),
        ceil_div(i + 1, r) == i / r + 1,
{
    lemma_fundamental_div_mod(i, r);
    lemma_mod_bound(i, r);
    let q = i / r;
    let m = i % r;
    assert(i == q * r + m) by (nonlinear_arith)
        requires
            i == r * q + m,
    ;
    assert((q + 1) * r == q * r + r) by (nonlinear_arith);
    lemma_div_unique(i + r, r, q + 1);
    if m == 0 {
        lemma_div_unique(i + r - 1, r, q);
    } else {
        lemma_div_unique(i + r - 1, r, q + 1);
    }
}

proof fn lemma_multiple(k: int, r: int)
    requires
        k >= 0,
        r > 0,
    ensures
        (k * r) % r == 0,
        (k * r) / r == k,
        ceil_div(k * r, r) == k,
{
    assert(k * r + r == (k + 1) * r) by (nonlinear_arith);
    lemma_div_unique(k * r, r, k);
    lemma_div_unique(k * r + r - 1, r, k);
}

proof fn lemma_ceil_exact(n: int, r: int, m: int)
    requires
        n >= 0,
        r > 0,
        m >= 0,
        m > 0 ==> (m - 1) * r < n,
        n <= m * r,
    ensures
        ceil_div(n, r) == m,
{
    assert((m - 1) * r == m * r - r) by (nonlinear_arith);
    if m == 0 {
        assert(m * r == 0) by (nonlinear_arith)
            requires
                m == 0,
        ;
    }
    lemma_div_unique(n + r - 1, r, m);
}

proof fn lemma_delta_word(prev: u32, x: u32)
    requires
        -0x8000_0000 <= x - prev < 0x8000_0000,
    ensures
        saturating_apply_delta_spec(prev, word_as_signed(delta_word(prev, x))) == x,
{
    let y = x - prev;
    if y >= 0 {
        lemma_div_unique(y + 0x1_0000_0000, 0x1_0000_0000, 1);
    } else {
        lemma_div_unique(y + 0x1_0000_0000, 0x1_0000_0000, 0);
    }
}

proof fn lemma_interleaved_len(dp: Seq<u32>, dt: Seq<u32>, r0: int, r1: int, i: int)
    requires
        r0 > 0,
        r1 > 0,
        i >= 0,
    ensures
        interleaved(dp, dt, r0, r1, i).len() == ceil_div(i, r0) + ceil_div(i, r1),
    decreases i,
{
    if i == 0 {
        lemma_ceil_zero(r0);
        lemma_ceil_zero(r1);
    } else {
        lemma_interleaved_len(dp, dt, r0, r1, i - 1);
        lemma_ceil_step(i - 1, r0);
        lemma_ceil_step(i - 1, r1);
    }
}

proof fn lemma_interleaved_prefix(dp: Seq<u32>, dt: Seq<u32>, r0: int, r1: int, i: int, i2: int)
    requires
        0 <= i <= i2,
    ensures
        interleaved(dp, dt, r0, r1, i).len() <= interleaved(dp, dt, r0, r1, i2).len(),
        forall|q: int|
            0 <= q < interleaved(dp, dt, r0, r1, i).len() ==> #[trigger] interleaved(
                dp,
                dt,
                r0,
                r1,
                i2,
            )[q] == interleaved(dp, dt, r0, r1, i)[q],
    decreases i2,
{
    if i2 > i {
        lemma_interleaved_prefix(dp, dt, r0, r1, i, i2 - 1);
    }
}

/// Channel 0: its `k`-th word sits where reconstruction reads it, and lies
/// in the stream iff its base index does.
proof fn lemma_channel0_words(p: Seq<u32>, t: Seq<u32>, r0: int, r1: int, k: int)
    requires
        r0 > 0,
        r1 > 0,
        k >= 0,
        p.len() == t.len(),
    ensures
        ({
            let s = recorded_stream(p, t, r0, r1);
            let pos = k + ceil_div(k * r0, r1);
            &&& (pos < s.len() <==> k * r0 < p.len())
            &&& k * r0 < p.len() ==> s[pos] == delta_words(sampled(p, r0))[k]
        }),
{
    let dp = delta_words(sampled(p, r0));
    let dt = delta_words(sampled(t, r1));
    let n = p.len() as int;
    let i = k * r0;
    assert(k * r0 >= 0) by (nonlinear_arith)
        requires
            k >= 0,
            r0 > 0,
    ;
    lemma_multiple(k, r0);
    lemma_interleaved_len(dp, dt, r0, r1, i);
    lemma_interleaved_len(dp, dt, r0, r1, i + 1);
    lemma_interleaved_len(dp, dt, r0, r1, n);
    lemma_ceil_step(i, r0);
    let pos = k + ceil_div(i, r1);
    assert(interleaved(dp, dt, r0, r1, i).len() == pos);
    assert(interleaved(dp, dt, r0, r1, i + 1)[pos] == dp[k]);
    if i < n {
        lemma_interleaved_prefix(dp, dt, r0, r1, i + 1, n);
    } else {
        lemma_interleaved_prefix(dp, dt, r0, r1, n, i);
    }
}

/// Channel 1: its `k`-th word sits where reconstruction reads it, and lies
/// in the stream iff its base index does.
proof fn lemma_channel1_words(p: Seq<u32>, t: Seq<u32>, r0: int, r1: int, k: int)
    requires
        r0 > 0,
        r1 > 0,
        k >= 0,
        p.len() == t.len(),
    ensures
        ({
            let s = recorded_stream(p, t, r0, r1);
            let pos = (k * r1) / r0 + 1 + k;
            &&& (pos < s.len() <==> k * r1 < t.len())
            &&& k * r1 < t.len() ==> s[pos] == delta_words(sampled(t, r1))[k]
        }),
{
    let dp = delta_words(sampled(p, r0));
    let dt = delta_words(sampled(t, r1));
    let n = p.len() as int;
    let i = k * r1;
    assert(k * r1 >= 0) by (nonlinear_arith)
        requires
            k >= 0,
            r1 > 0,
    ;
    lemma_multiple(k, r1);
    lemma_interleaved_len(dp, dt, r0, r1, i);
    lemma_interleaved_len(dp, dt, r0, r1, i + 1);
    lemma_interleaved_len(dp, dt, r0, r1, n);
    lemma_ceil_step(i, r0);
    lemma_ceil_step(i, r1);
    let pos = i / r0 + 1 + k;
    let before_len = interleaved(dp, dt, r0, r1, i).len() + (if i % r0 == 0 {
        1int
    } else {
        0int
    });
    assert(before_len == pos);
    assert(interleaved(dp, dt, r0, r1, i + 1)[pos] == dt[k]);
    if i < n {
        lemma_interleaved_prefix(dp, dt, r0, r1, i + 1, n);
    } else {
        lemma_interleaved_prefix(dp, dt, r0, r1, n, i);
    }
}

proof fn lemma_counters(h: DataPacketHeader, words: Seq<u32>, c: int, samples: Seq<u32>, k: int)
    requires
        0 <= k < samples.len(),
        deltas_fit(samples),
        forall|j: int|
            0 <= j <= k ==> words[#[trigger] page_sample_pos(h, c, j)] == delta_words(
                samples,
            )[j],
    ensures
        running_counter(h, words, c, k) == samples[k],
    decreases k,
{
    if k > 0 {
        lemma_counters(h, words, c, samples, k - 1);
    }
    assert(words[page_sample_pos(h, c, k)] == delta_words(samples)[k]);
    assert(-0x8000_0000 <= samples[k] - before(samples, k) < 0x8000_0000);
    lemma_delta_word(before(samples, k), samples[k]);
}

/// Reconstruction is exact: for two channels over the same base indices,
/// sampled every `interleave_ratio[0]`-th and every `interleave_ratio[1]`-th
/// (both nonzero) and written as interleaved difference words, the rebuilt
/// channels hold exactly the sampled values, in order, wherever each
/// difference fits a signed 32-bit word.
pub proof fn lemma_interleave_exact(
    h: DataPacketHeader,
    p: Seq<u32>,
    t: Seq<u32>,
    fp: Seq<Record>,
    ft: Seq<Record>,
)
    requires
        h.interleave_ratio[0] > 0,
        h.interleave_ratio[1] > 0,
        p.len() == t.len(),
        deltas_fit(sampled(p, h.interleave_ratio[0] as int)),
        deltas_fit(sampled(t, h.interleave_ratio[1] as int)),
        channel_rebuilt(
            h,
            recorded_stream(p, t, h.interleave_ratio[0] as int, h.interleave_ratio[1] as int),
            0,
            fp,
        ),
        channel_rebuilt(
            h,
            recorded_stream(p, t, h.interleave_ratio[0] as int, h.interleave_ratio[1] as int),
            1,
            ft,
        ),
    ensures
        fp.len() == sampled(p, h.interleave_ratio[0] as int).len(),
        forall|k: int|
            0 <= k < fp.len() ==> #[trigger] fp[k].result == sampled(
                p,
                h.interleave_ratio[0] as int,
            )[k],
        ft.len() == sampled(t, h.interleave_ratio[1] as int).len(),
        forall|k: int|
            0 <= k < ft.len() ==> #[trigger] ft[k].result == sampled(
                t,
                h.interleave_ratio[1] as int,
            )[k],
{
    let r0 = h.interleave_ratio[0] as int;
    let r1 = h.interleave_ratio[1] as int;
    let s = recorded_stream(p, t, r0, r1);
    let n = p.len() as int;
    // channel 0
    let m0 = fp.len() as int;
    lemma_channel0_words(p, t, r0, r1, m0);
    if m0 > 0 {
        assert(page_sample_pos(h, 0, m0 - 1) < s.len());
        lemma_channel0_words(p, t, r0, r1, m0 - 1);
    }
    lemma_ceil_exact(n, r0, m0);
    assert forall|j: int| 0 <= j < m0 implies words_at_pos0(h, p, t, j) by {
        assert(page_sample_pos(h, 0, j) < s.len());
        lemma_channel0_words(p, t, r0, r1, j);
    }
    assert forall|k: int| 0 <= k < m0 implies #[trigger] fp[k].result == sampled(p, r0)[k] by {
        assert forall|j: int| 0 <= j <= k implies s[#[trigger] page_sample_pos(h, 0, j)]
            == delta_words(sampled(p, r0))[j] by {
            assert(words_at_pos0(h, p, t, j));
        }
        lemma_counters(h, s, 0, sampled(p, r0), k);
    }
    // channel 1
    let m1 = ft.len() as int;
    lemma_channel1_words(p, t, r0, r1, m1);
    if m1 > 0 {
        assert(page_sample_pos(h, 1, m1 - 1) < s.len());
        lemma_channel1_words(p, t, r0, r1, m1 - 1);
    }
    lemma_ceil_exact(n, r1, m1);
    assert forall|j: int| 0 <= j < m1 implies words_at_pos1(h, p, t, j) by {
        assert(page_sample_pos(h, 1, j) < s.len());
        lemma_channel1_words(p, t, r0, r1, j);
    }
    assert forall|k: int| 0 <= k < m1 implies #[trigger] ft[k].result == sampled(t, r1)[k] by {
        assert forall|j: int| 0 <= j <= k implies s[#[trigger] page_sample_pos(h, 1, j)]
            == delta_words(sampled(t, r1))[j] by {
            assert(words_at_pos1(h, p, t, j));
        }
        lemma_counters(h, s, 1, sampled(t, r1), k);
    }
}

spec fn words_at_pos0(h: DataPacketHeader, p: Seq<u32>, t: Seq<u32>, j: int) -> bool {
    let r0 = h.interleave_ratio[0] as int;
    let r1 = h.interleave_ratio[1] as int;
    recorded_stream(p, t, r0, r1)[page_sample_pos(h, 0, j)] == delta_words(sampled(p, r0))[j]
}

spec fn words_at_pos1(h: DataPacketHeader, p: Seq<u32>, t: Seq<u32>, j: int) -> bool {
    let r0 = h.interleave_ratio[0] as int;
    let r1 = h.interleave_ratio[1] as int;
    recorded_stream(p, t, r0, r1)[page_sample_pos(h, 1, j)] == delta_words(sampled(t, r1))[j]
}

} // verus!
