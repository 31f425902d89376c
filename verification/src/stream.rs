//! Per-stream rolling state and the streaming drivers.
//!
//! A [`RollingState`] holds the two 32-bit accumulators of one scalar
//! stream; [`SimdRollingState`] holds eight of them advanced in lock-step.
//! The drivers here run the windowed protocol of a [`KmerHasher`] over a
//! symbol slice: prime the state for `delay` steps, then feed each incoming
//! symbol together with the symbol leaving the window, and collect one hash
//! per full window.
use vstd::prelude::*;

verus! {

use crate::{RollingHasher, all_valid, kmer_hashes_of, lag_sym, masked_kmer_hashes_of, num_kmers, sym_at, window_amb};
use vstd::arithmetic::div_mod::{
    lemma_fundamental_div_mod, lemma_fundamental_div_mod_converse, lemma_mod_bound,
};

/// The mutable accumulators of one active stream: the forward accumulator
/// `fw` and, for canonical hashing, the reverse-complement accumulator `rc`.
#[derive(Clone, Copy)]
pub struct RollingState {
    pub fw: u32,
    pub rc: u32,
}

/// Eight 32-bit values, one per lane.
#[derive(Clone, Copy)]
pub struct Lanes {
    pub v: [u32; 8],
}

/// Eight rolling states advanced in lock-step, one per lane.
#[derive(Clone, Copy)]
pub struct SimdRollingState {
    pub lanes: [RollingState; 8],
}

/// The output of a lane-parallel run: one [`Lanes`] entry per step, plus
/// how many trailing values of the flattened, lane-major order are padding.
pub struct PaddedHashes {
    pub lanes: Vec<Lanes>,
    pub padding: usize,
}

/// How many windows one lane-parallel run covers: the windows of the
/// sequence, less the `ctx - 1` positions of caller-requested overlap.
pub open spec fn simd_chunk_kmers(k: int, ctx: int, n: int) -> int {
    if num_kmers(k, n) - (ctx - 1) > 0 {
        num_kmers(k, n) - (ctx - 1)
    } else {
        0
    }
}

/// How far apart neighbouring lanes' first windows are.
pub open spec fn simd_stride(k: int, ctx: int, n: int) -> int {
    (simd_chunk_kmers(k, ctx, n) + 7) / 8
}

/// How many values each lane emits.
pub open spec fn simd_lane_len(k: int, ctx: int, n: int) -> int {
    if simd_chunk_kmers(k, ctx, n) == 0 {
        0
    } else {
        simd_stride(k, ctx, n) + ctx - 1
    }
}

/// How many trailing values of the flattened lane-major order are padding.
pub open spec fn simd_padding(k: int, ctx: int, n: int) -> int {
    if simd_chunk_kmers(k, ctx, n) == 0 {
        0
    } else {
        8 * simd_stride(k, ctx, n) - simd_chunk_kmers(k, ctx, n)
    }
}

/// The symbol stream lane `l` consumes: `steps` symbols of `s` starting at
/// `l * stride`, padded with 0 past the end of `s`.
pub open spec fn lane_seq(s: Seq<u8>, stride: int, steps: int, l: int) -> Seq<u8> {
    Seq::new(steps as nat, |q: int| sym_at(s, l * stride + q))
}

impl PaddedHashes {
    /// The padding never exceeds what the lanes hold.
    pub open spec fn wf(&self) -> bool {
        &&& self.padding <= 8 * self.lanes@.len()
        &&& self.lanes@.len() <= usize::MAX as int / 8
    }

    /// The lane-major flattening: all of lane 0, then all of lane 1, and so
    /// on, with the trailing `padding` values dropped.
    pub open spec fn flat(&self) -> Seq<u32> {
        Seq::new(
            (8 * self.lanes@.len() - self.padding) as nat,
            |j: int| self.lanes@[j % self.lanes@.len() as int].v@[j / self.lanes@.len() as int],
        )
    }

    /// Flatten the lanes into one vector, lane-major, dropping the padding.
    pub fn to_vec(&self) -> (out: Vec<u32>)
        requires
            self.wf(),
        ensures
            out@ == self.flat(),
    {
        let count = self.lanes.len();
        let total = 8 * count - self.padding;
        let mut out: Vec<u32> = Vec::new();
        let mut l: usize = 0;
        while l < 8
            invariant
                self.wf(),
                count == self.lanes@.len(),
                total == 8 * count - self.padding,
                l <= 8,
                out@.len() == if l * count <= total {
                    l * count
                } else {
                    total as int
                },
                forall|j: int| 0 <= j < out@.len() ==> out@[j] == self.flat()[j],
            decreases 8 - l,
        {
            let mut t: usize = 0;
            while t < count
                invariant
                    self.wf(),
                    count == self.lanes@.len(),
                    total == 8 * count - self.padding,
                    l < 8,
                    t <= count,
                    out@.len() == if l * count + t <= total {
                        l * count + t
                    } else {
                        total as int
                    },
                    forall|j: int| 0 <= j < out@.len() ==> out@[j] == self.flat()[j],
                decreases count - t,
            {
                proof {
                    assert(l * count + t < 8 * count) by (nonlinear_arith)
                        requires
                            l < 8,
                            t < count,
                            0 <= count,
                    ;
                }
                let j = l * count + t;
                if j < total {
                    proof {
                        lemma_fundamental_div_mod_converse(
                            j as int,
                            count as int,
                            l as int,
                            t as int,
                        );
                    }
                    out.push(self.lanes[t].v[l]);
                }
                t += 1;
            }
            proof {
                assert((l + 1) * count == l * count + count) by (nonlinear_arith);
            }
            l += 1;
        }
        proof {
            assert(out@ =~= self.flat());
        }
        out
    }
}

/// Advance all eight lanes by one windowed step; lane `l` takes incoming
/// symbol `a[l]` and outgoing symbol `r[l]`.  Each lane's new state and
/// output are exactly those of the scalar step on that lane.
pub fn simd_step<H: RollingHasher>(h: &H, st: SimdRollingState, a: &[u8; 8], r: &[u8; 8]) -> (res: (
    SimdRollingState,
    Lanes,
))
    requires
        h.wf(),
        forall|l: int| 0 <= l < 8 ==> h.valid_sym(a@[l]) && h.valid_sym(r@[l]),
    ensures
        forall|l: int|
            0 <= l < 8 ==> res.0.lanes@[l] == h.spec_step(st.lanes@[l], a@[l], r@[l])
                && res.1.v@[l] == h.spec_out(st.lanes@[l], a@[l], r@[l]),
{
    let mut cur: [RollingState; 8] = st.lanes;
    let mut ov: [u32; 8] = [0u32; 8];
    let mut l: usize = 0;
    while l < 8
        invariant
            h.wf(),
            forall|q: int| 0 <= q < 8 ==> h.valid_sym(a@[q]) && h.valid_sym(r@[q]),
            l <= 8,
            forall|q: int|
                0 <= q < l ==> cur@[q] == h.spec_step(st.lanes@[q], a@[q], r@[q]) && ov@[q]
                    == h.spec_out(st.lanes@[q], a@[q], r@[q]),
            forall|q: int| l <= q < 8 ==> cur@[q] == st.lanes@[q],
        decreases 8 - l,
    {
        let mut tmp = cur[l];
        let o = h.in_out_step(&mut tmp, a[l], r[l]);
        cur[l] = tmp;
        ov[l] = o;
        l += 1;
    }
    (SimdRollingState { lanes: cur }, Lanes { v: ov })
}

/// Run the one-shot pass over the whole of `seq` and return its last
/// output; 0 on the empty sequence.
pub fn run_seq_hash<H: RollingHasher>(h: &H, seq: &[u8]) -> (r: u32)
    requires
        h.wf(),
        all_valid(h, seq@),
    ensures
        r == if seq@.len() == 0 {
            0u32
        } else {
            h.spec_prefix_hash(seq@, seq@.len() - 1)
        },
{
    proof {
        h.lemma_prefix_init(seq@);
    }
    let n = seq.len();
    let mut st = RollingState { fw: 0, rc: 0 };
    let mut last: u32 = 0;
    let mut i: usize = 0;
    while i < n
        invariant
            h.wf(),
            all_valid(h, seq@),
            n == seq@.len(),
            i <= n,
            h.spec_prefix_inv(seq@, i as int, st),
            last == if i == 0 {
                0u32
            } else {
                h.spec_prefix_hash(seq@, i - 1)
            },
        decreases n - i,
    {
        proof {
            h.lemma_prefix_step(seq@, i as int, st);
        }
        last = h.prefix_step(&mut st, seq[i], i, n);
        i += 1;
    }
    last
}

/// Run the one-shot pass over `seq`, returning the hash of every non-empty
/// prefix.
pub fn run_prefixes<H: RollingHasher>(h: &H, seq: &[u8]) -> (out: Vec<u32>)
    requires
        h.wf(),
        all_valid(h, seq@),
    ensures
        out@.len() == seq@.len(),
        forall|i: int| 0 <= i < seq@.len() ==> out@[i] == h.spec_prefix_hash(seq@, i),
{
    proof {
        h.lemma_prefix_init(seq@);
    }
    let n = seq.len();
    let mut st = RollingState { fw: 0, rc: 0 };
    let mut out: Vec<u32> = Vec::new();
    let mut i: usize = 0;
    while i < n
        invariant
            h.wf(),
            all_valid(h, seq@),
            n == seq@.len(),
            i <= n,
            h.spec_prefix_inv(seq@, i as int, st),
            out@.len() == i,
            forall|q: int| 0 <= q < i ==> out@[q] == h.spec_prefix_hash(seq@, q),
        decreases n - i,
    {
        proof {
            h.lemma_prefix_step(seq@, i as int, st);
        }
        let o = h.prefix_step(&mut st, seq[i], i, n);
        out.push(o);
        i += 1;
    }
    out
}

/// Run the windowed protocol over `seq` in one scalar pass, returning the
/// hash of every full window in order.
pub fn run_scalar<H: RollingHasher>(h: &H, seq: &[u8]) -> (out: Vec<u32>)
    requires
        h.wf(),
        all_valid(h, seq@),
    ensures
        out@ == kmer_hashes_of(h, seq@),
{
    proof {
        h.lemma_wf_facts();
        h.lemma_stream_init(seq@);
    }
    let k = h.k();
    let d = h.delay();
    let n = seq.len();
    let mut st = h.init_state();
    let mut out: Vec<u32> = Vec::new();
    let mut j: usize = 0;
    while j < n
        invariant
            h.wf(),
            all_valid(h, seq@),
            k as int == h.spec_k(),
            d as int == h.spec_delay(),
            1 <= k,
            d < k,
            n == seq@.len(),
            j <= n,
            h.spec_stream_inv(seq@, j as int, st),
            out@.len() == if j + 1 > k {
                j - (k - 1)
            } else {
                0int
            },
            forall|q: int| 0 <= q < out@.len() ==> out@[q] == kmer_hashes_of(h, seq@)[q],
        decreases n - j,
    {
        let a = seq[j];
        let r = if j >= d {
            seq[j - d]
        } else {
            0u8
        };
        proof {
            h.lemma_wf_facts();
            assert(h.valid_sym(seq@[j as int]));
            if j >= d {
                assert(h.valid_sym(seq@[j - d]));
            }
            assert(r == lag_sym(seq@, h.spec_delay(), j as int));
            h.lemma_stream_step(seq@, j as int, st);
        }
        let o = h.in_out_step(&mut st, a, r);
        if j + 1 >= k {
            proof {
                assert(seq@.subrange(j - (k - 1), j + 1) =~= seq@.subrange(
                    j - h.spec_k() + 1,
                    j + 1,
                ));
                assert(o == kmer_hashes_of(h, seq@)[j - (k - 1)]);
            }
            out.push(o);
        }
        j += 1;
    }
    proof {
        assert(out@ =~= kmer_hashes_of(h, seq@));
    }
    out
}

/// The per-window ambiguity stream: entry `i` says whether the window of
/// `k` symbols starting at `i` overlaps a flagged position.
pub fn window_flags(amb: &[bool], k: usize) -> (out: Vec<bool>)
    requires
        1 <= k,
    ensures
        out@.len() == num_kmers(k as int, amb@.len() as int),
        forall|i: int| 0 <= i < out@.len() ==> out@[i] == window_amb(amb@, i, k as int),
{
    let n = amb.len();
    let mut out: Vec<bool> = Vec::new();
    let mut seen = false;
    let mut last: usize = 0;
    let mut i: usize = 0;
    while i < n
        invariant
            n == amb@.len(),
            i <= n,
            1 <= k,
            seen ==> last < i && amb@[last as int] && (forall|q: int|
                last < q < i ==> !amb@[q]),
            !seen ==> forall|q: int| 0 <= q < i ==> !amb@[q],
            out@.len() == if i + 1 > k {
                i - (k - 1)
            } else {
                0int
            },
            forall|w: int| 0 <= w < out@.len() ==> out@[w] == window_amb(amb@, w, k as int),
        decreases n - i,
    {
        if amb[i] {
            seen = true;
            last = i;
        }
        if i + 1 >= k {
            let ws = i + 1 - k;
            let f = seen && last >= ws;
            proof {
                if f {
                    assert(ws <= last < ws + k && amb@[last as int]);
                    assert(window_amb(amb@, ws as int, k as int));
                } else {
                    assert forall|q: int| ws <= q < ws + k implies !amb@[q] by {
                        if seen {
                            assert(q > last);
                        }
                    }
                    assert(!window_amb(amb@, ws as int, k as int));
                }
            }
            out.push(f);
        }
        i += 1;
    }
    proof {
        assert(out@.len() == num_kmers(k as int, n as int));
    }
    out
}

/// Run the windowed protocol over `seq` in one scalar pass, emitting the
/// sentinel `u32::MAX` for every window that overlaps a flagged position
/// and the window's hash otherwise.
pub fn run_valid_scalar<H: RollingHasher>(h: &H, seq: &[u8], amb: &[bool]) -> (out: Vec<u32>)
    requires
        h.wf(),
        all_valid(h, seq@),
        amb@.len() == seq@.len(),
    ensures
        out@ == masked_kmer_hashes_of(h, seq@, amb@),
{
    proof {
        h.lemma_wf_facts();
        h.lemma_stream_init(seq@);
    }
    let k = h.k();
    let d = h.delay();
    let n = seq.len();
    let flags = window_flags(amb, k);
    let mut st = h.init_state();
    let mut out: Vec<u32> = Vec::new();
    let mut j: usize = 0;
    while j < n
        invariant
            h.wf(),
            all_valid(h, seq@),
            amb@.len() == seq@.len(),
            k as int == h.spec_k(),
            d as int == h.spec_delay(),
            1 <= k,
            d < k,
            n == seq@.len(),
            j <= n,
            flags@.len() == num_kmers(k as int, n as int),
            forall|w: int| 0 <= w < flags@.len() ==> flags@[w] == window_amb(amb@, w, k as int),
            h.spec_stream_inv(seq@, j as int, st),
            out@.len() == if j + 1 > k {
                j - (k - 1)
            } else {
                0int
            },
            forall|q: int|
                0 <= q < out@.len() ==> out@[q] == masked_kmer_hashes_of(h, seq@, amb@)[q],
        decreases n - j,
    {
        let a = seq[j];
        let r = if j >= d {
            seq[j - d]
        } else {
            0u8
        };
        proof {
            h.lemma_wf_facts();
            assert(h.valid_sym(seq@[j as int]));
            if j >= d {
                assert(h.valid_sym(seq@[j - d]));
            }
            assert(r == lag_sym(seq@, h.spec_delay(), j as int));
            h.lemma_stream_step(seq@, j as int, st);
        }
        let o = h.in_out_step(&mut st, a, r);
        if j + 1 >= k {
            let w = j + 1 - k;
            let masked = if flags[w] {
                u32::MAX
            } else {
                o
            };
            proof {
                assert(seq@.subrange(j - (k - 1), j + 1) =~= seq@.subrange(
                    j - h.spec_k() + 1,
                    j + 1,
                ));
                assert(masked == masked_kmer_hashes_of(h, seq@, amb@)[w as int]);
            }
            out.push(masked);
        }
        j += 1;
    }
    proof {
        assert(out@ =~= masked_kmer_hashes_of(h, seq@, amb@));
    }
    out
}

/// Fetch the symbol at `idx`, reading 0 past the end of the sequence.
fn padded_sym(seq: &[u8], idx: usize) -> (r: u8)
    ensures
        r == sym_at(seq@, idx as int),
{
    if idx < seq.len() {
        seq[idx]
    } else {
        0
    }
}

/// Run the windowed protocol over eight lanes in lock-step; lane `l`
/// covers the windows starting at `l * stride`.
pub fn run_simd<H: RollingHasher>(h: &H, seq: &[u8], context: usize) -> (out: PaddedHashes)
    requires
        h.wf(),
        all_valid(h, seq@),
        1 <= context,
        seq@.len() + context <= usize::MAX / 32,
    ensures
        out.wf(),
        out.lanes@.len() == simd_lane_len(h.spec_k(), context as int, seq@.len() as int),
        out.padding == simd_padding(h.spec_k(), context as int, seq@.len() as int),
        forall|l: int, t: int|
            #![trigger out.lanes@[t].v@[l]]
            {
                let stride = simd_stride(h.spec_k(), context as int, seq@.len() as int);
                0 <= l < 8 && 0 <= t < out.lanes@.len() && l * stride + t < num_kmers(
                    h.spec_k(),
                    seq@.len() as int,
                ) ==> out.lanes@[t].v@[l] == kmer_hashes_of(h, seq@)[l * stride + t]
            },
        context == 1 ==> out.flat() == kmer_hashes_of(h, seq@),
{
    proof {
        h.lemma_wf_facts();
    }
    let k = h.k();
    let d = h.delay();
    let n = seq.len();
    let ghost kk = h.spec_k();
    let ghost ctx = context as int;
    let ghost nn = seq@.len() as int;

    let m = if k <= n {
        let nk = n - k + 1;
        if context - 1 < nk {
            nk - (context - 1)
        } else {
            0
        }
    } else {
        0
    };
    assert(m as int == simd_chunk_kmers(kk, ctx, nn));
    if m == 0 {
        let out = PaddedHashes { lanes: Vec::new(), padding: 0 };
        proof {
            if context == 1 {
                assert(num_kmers(kk, nn) == 0);
                assert(out.flat() =~= kmer_hashes_of(h, seq@));
            }
        }
        return out;
    }
    let stride = (m + 7) / 8;
    let lane_len = stride + (context - 1);
    let steps = lane_len + (k - 1);
    let padding = 8 * stride - m;
    proof {
        lemma_fundamental_div_mod(m as int + 7, 8);
    }
    assert(stride as int == simd_stride(kk, ctx, nn));
    assert(m <= 8 * stride && 8 * stride <= m + 7);
    assert(lane_len as int == simd_lane_len(kk, ctx, nn));
    assert(padding as int == simd_padding(kk, ctx, nn));

    let st0 = h.init_state();
    let mut sim = SimdRollingState { lanes: [st0, st0, st0, st0, st0, st0, st0, st0] };
    let mut outv: Vec<Lanes> = Vec::new();
    proof {
        assert forall|l: int| 0 <= l < 8 implies h.spec_stream_inv(
            lane_seq(seq@, stride as int, steps as int, l),
            0,
            h.spec_init(),
        ) by {
            h.lemma_stream_init(lane_seq(seq@, stride as int, steps as int, l));
        }
        assert forall|l: int| 0 <= l < 8 implies all_valid(
            h,
            lane_seq(seq@, stride as int, steps as int, l),
        ) by {
            let ls = lane_seq(seq@, stride as int, steps as int, l);
            assert forall|q: int| 0 <= q < ls.len() implies h.valid_sym(#[trigger] ls[q]) by {
                assert(ls[q] == sym_at(seq@, l * (stride as int) + q));
            }
        }
    }
    let mut t: usize = 0;
    while t < steps
        invariant
            h.wf(),
            all_valid(h, seq@),
            kk == h.spec_k(),
            k as int == kk,
            d as int == h.spec_delay(),
            1 <= k,
            d < k,
            n == seq@.len(),
            nn == n as int,
            ctx == context as int,
            1 <= context,
            n + context <= usize::MAX / 32,
            k <= n,
            1 <= m,
            m as int == simd_chunk_kmers(kk, ctx, nn),
            m <= n,
            stride as int == simd_stride(kk, ctx, nn),
            m <= 8 * stride && 8 * stride <= m + 7,
            8 * stride <= n + 7,
            lane_len == stride + (context - 1),
            steps == lane_len + (k - 1),
            steps <= n + context,
            t <= steps,
            forall|l: int|
                0 <= l < 8 ==> all_valid(
                    h,
                    #[trigger] lane_seq(seq@, stride as int, steps as int, l),
                ),
            forall|l: int|
                0 <= l < 8 ==> h.spec_stream_inv(
                    #[trigger] lane_seq(seq@, stride as int, steps as int, l),
                    t as int,
                    sim.lanes@[l],
                ),
            outv@.len() == if t + 1 > k {
                t - (k - 1)
            } else {
                0int
            },
            forall|tt: int, l: int|
                0 <= tt < outv@.len() && 0 <= l < 8 ==> #[trigger] outv@[tt].v@[l]
                    == h.spec_kmer_hash(
                    lane_seq(seq@, stride as int, steps as int, l).subrange(tt, tt + kk),
                ),
        decreases steps - t,
    {
        let mut av: [u8; 8] = [0u8; 8];
        let mut rv: [u8; 8] = [0u8; 8];
        let mut l: usize = 0;
        while l < 8
            invariant
                n == seq@.len(),
                l <= 8,
                t < steps,
                8 * stride <= n + 7,
                steps <= n + context,
                n + context <= usize::MAX / 32,
                d <= t || t < d,
                forall|q: int| 0 <= q < l ==> av@[q] == sym_at(seq@, q * (stride as int) + t),
                forall|q: int|
                    0 <= q < l ==> rv@[q] == lag_sym(
                        lane_seq(seq@, stride as int, steps as int, q),
                        d as int,
                        t as int,
                    ),
                d < steps,
            decreases 8 - l,
        {
            proof {
                assert(l * stride <= 7 * stride) by (nonlinear_arith)
                    requires
                        l <= 7,
                        0 <= stride,
                ;
            }
            let base = l * stride;
            av[l] = padded_sym(seq, base + t);
            if t >= d {
                rv[l] = padded_sym(seq, base + (t - d));
                proof {
                    let ls = lane_seq(seq@, stride as int, steps as int, l as int);
                    assert(ls[t - d] == sym_at(seq@, l * (stride as int) + (t - d)));
                }
            } else {
                rv[l] = 0;
            }
            l += 1;
        }
        proof {
            assert forall|q: int| 0 <= q < 8 implies h.valid_sym(av@[q]) && h.valid_sym(rv@[q]) by {
                h.lemma_wf_facts();
                let ls = lane_seq(seq@, stride as int, steps as int, q);
                assert(av@[q] == sym_at(seq@, q * (stride as int) + t));
                if 0 <= q * (stride as int) + t < seq@.len() {
                    assert(h.valid_sym(seq@[q * (stride as int) + t]));
                }
                if t >= d && 0 <= q * (stride as int) + (t - d) < seq@.len() {
                    assert(h.valid_sym(seq@[q * (stride as int) + (t - d)]));
                }
            }
            assert forall|q: int| 0 <= q < 8 implies av@[q] == lane_seq(
                seq@,
                stride as int,
                steps as int,
                q,
            )[t as int] by {
                assert(lane_seq(seq@, stride as int, steps as int, q)[t as int] == sym_at(
                    seq@,
                    q * (stride as int) + t,
                ));
            }
            assert forall|q: int| 0 <= q < 8 implies h.spec_stream_inv(
                lane_seq(seq@, stride as int, steps as int, q),
                t + 1,
                h.spec_step(
                    sim.lanes@[q],
                    lane_seq(seq@, stride as int, steps as int, q)[t as int],
                    lag_sym(lane_seq(seq@, stride as int, steps as int, q), d as int, t as int),
                ),
            ) && (t >= k - 1 ==> h.spec_out(
                sim.lanes@[q],
                lane_seq(seq@, stride as int, steps as int, q)[t as int],
                lag_sym(lane_seq(seq@, stride as int, steps as int, q), d as int, t as int),
            ) == h.spec_kmer_hash(
                lane_seq(seq@, stride as int, steps as int, q).subrange(t - kk + 1, t + 1),
            )) by {
                h.lemma_stream_step(
                    lane_seq(seq@, stride as int, steps as int, q),
                    t as int,
                    sim.lanes@[q],
                );
            }
        }
        let res = simd_step(h, sim, &av, &rv);
        sim = res.0;
        let ol = res.1;
        if t + 1 >= k {
            proof {
                assert forall|l2: int| 0 <= l2 < 8 implies ol.v@[l2] == h.spec_kmer_hash(
                    lane_seq(seq@, stride as int, steps as int, l2).subrange(
                        t - (k - 1),
                        t - (k - 1) + kk,
                    ),
                ) by {
                    assert(lane_seq(seq@, stride as int, steps as int, l2).subrange(
                        t - (k - 1),
                        t - (k - 1) + kk,
                    ) =~= lane_seq(seq@, stride as int, steps as int, l2).subrange(
                        t - kk + 1,
                        t + 1,
                    ));
                }
            }
            outv.push(ol);
        }
        t += 1;
    }
    let out = PaddedHashes { lanes: outv, padding };
    proof {
        assert(out.lanes@.len() == lane_len);
        assert(out.wf());
        let stri = stride as int;
        assert forall|l: int, t2: int|
            0 <= l < 8 && 0 <= t2 < out.lanes@.len() && l * stri + t2 < num_kmers(kk, nn) implies #[trigger] out
            .lanes@[t2].v@[l] == kmer_hashes_of(h, seq@)[l * stri + t2] by {
            let g = l * stri + t2;
            let ls = lane_seq(seq@, stri, steps as int, l);
            assert(out.lanes@[t2].v@[l] == h.spec_kmer_hash(ls.subrange(t2, t2 + kk)));
            let w1 = ls.subrange(t2, t2 + kk);
            let w2 = seq@.subrange(g, g + kk);
            assert forall|q: int| 0 <= q < kk implies w1[q] == w2[q] by {
                assert(w1[q] == ls[t2 + q]);
                assert(ls[t2 + q] == sym_at(seq@, g + q));
            }
            assert(ls.subrange(t2, t2 + kk) =~= seq@.subrange(g, g + kk));
            assert(kmer_hashes_of(h, seq@)[g] == h.spec_kmer_hash(seq@.subrange(g, g + kk)));
        }
        if context == 1 {
            assert(out.flat().len() == num_kmers(kk, nn));
            assert forall|j: int| 0 <= j < out.flat().len() implies out.flat()[j]
                == kmer_hashes_of(h, seq@)[j] by {
                let lcount = out.lanes@.len() as int;
                assert(lcount == stri);
                let l = j / lcount;
                let t2 = j % lcount;
                lemma_fundamental_div_mod(j, lcount);
                lemma_mod_bound(j, lcount);
                assert(0 <= l < 8) by (nonlinear_arith)
                    requires
                        0 < lcount,
                        j == lcount * l + t2,
                        0 <= t2 < lcount,
                        0 <= j < 8 * lcount,
                ;
                assert(l * stri + t2 == j) by (nonlinear_arith)
                    requires
                        j == lcount * l + t2,
                        lcount == stri,
                ;
                assert(out.flat()[j] == out.lanes@[t2].v@[l]);
            }
            assert(out.flat() =~= kmer_hashes_of(h, seq@));
        }
    }
    out
}

/// Run the lane-parallel windowed protocol with ambiguity masking: every
/// lane entry whose window overlaps a flagged position is replaced by the
/// sentinel `u32::MAX`.
pub fn run_valid_simd<H: RollingHasher>(h: &H, seq: &[u8], amb: &[bool], context: usize) -> (out:
    PaddedHashes)
    requires
        h.wf(),
        all_valid(h, seq@),
        amb@.len() == seq@.len(),
        1 <= context,
        seq@.len() + context <= usize::MAX / 32,
    ensures
        out.wf(),
        out.lanes@.len() == simd_lane_len(h.spec_k(), context as int, seq@.len() as int),
        out.padding == simd_padding(h.spec_k(), context as int, seq@.len() as int),
        forall|l: int, t: int|
            #![trigger out.lanes@[t].v@[l]]
            {
                let stride = simd_stride(h.spec_k(), context as int, seq@.len() as int);
                0 <= l < 8 && 0 <= t < out.lanes@.len() && l * stride + t < num_kmers(
                    h.spec_k(),
                    seq@.len() as int,
                ) ==> out.lanes@[t].v@[l] == masked_kmer_hashes_of(h, seq@, amb@)[l * stride + t]
            },
        context == 1 ==> out.flat() == masked_kmer_hashes_of(h, seq@, amb@),
{
    proof {
        h.lemma_wf_facts();
    }
    let ghost kk = h.spec_k();
    let ghost ctx = context as int;
    let ghost nn = seq@.len() as int;
    let k = h.k();
    let n = seq.len();
    let hashed = run_simd(h, seq, context);
    let flags = window_flags(amb, k);
    let lcount = hashed.lanes.len();
    let m = if k <= n {
        let nk = n - k + 1;
        if context - 1 < nk {
            nk - (context - 1)
        } else {
            0
        }
    } else {
        0
    };
    assert(m as int == simd_chunk_kmers(kk, ctx, nn));
    let stride = (m + 7) / 8;
    proof {
        lemma_fundamental_div_mod(m as int + 7, 8);
    }
    assert(stride as int == simd_stride(kk, ctx, nn));

    let mut outv: Vec<Lanes> = Vec::new();
    let mut t: usize = 0;
    while t < lcount
        invariant
            h.wf(),
            kk == h.spec_k(),
            1 <= k,
            k as int == kk,
            n == seq@.len(),
            nn == n as int,
            ctx == context as int,
            amb@.len() == seq@.len(),
            stride as int == simd_stride(kk, ctx, nn),
            8 * stride <= m + 7,
            m as int == simd_chunk_kmers(kk, ctx, nn),
            m <= num_kmers(kk, nn),
            lcount == hashed.lanes@.len(),
            lcount == simd_lane_len(kk, ctx, nn),
            lcount <= usize::MAX as int / 8,
            flags@.len() == num_kmers(kk, nn),
            forall|w: int| 0 <= w < flags@.len() ==> flags@[w] == window_amb(amb@, w, kk),
            forall|l: int, t2: int|
                #![trigger hashed.lanes@[t2].v@[l]]
                0 <= l < 8 && 0 <= t2 < lcount && l * (stride as int) + t2 < num_kmers(kk, nn)
                    ==> hashed.lanes@[t2].v@[l] == kmer_hashes_of(h, seq@)[l * (stride as int) + t2],
            t <= lcount,
            outv@.len() == t,
            forall|l: int, t2: int|
                #![trigger outv@[t2].v@[l]]
                0 <= l < 8 && 0 <= t2 < t ==> outv@[t2].v@[l] == (if l * (stride as int) + t2
                    < num_kmers(kk, nn) && window_amb(amb@, l * (stride as int) + t2, kk) {
                    u32::MAX
                } else {
                    hashed.lanes@[t2].v@[l]
                }),
        decreases lcount - t,
    {
        let mut lv = hashed.lanes[t];
        let mut l: usize = 0;
        while l < 8
            invariant
                t < lcount,
                lcount <= usize::MAX as int / 8,
                stride <= usize::MAX as int / 8,
                flags@.len() == num_kmers(kk, nn),
                forall|w: int| 0 <= w < flags@.len() ==> flags@[w] == window_amb(amb@, w, kk),
                l <= 8,
                forall|q: int|
                    0 <= q < l ==> lv.v@[q] == (if q * (stride as int) + t < num_kmers(kk, nn)
                        && window_amb(amb@, q * (stride as int) + t, kk) {
                        u32::MAX
                    } else {
                        hashed.lanes@[t as int].v@[q]
                    }),
                forall|q: int| l <= q < 8 ==> lv.v@[q] == hashed.lanes@[t as int].v@[q],
            decreases 8 - l,
        {
            proof {
                assert(l * stride <= 7 * stride) by (nonlinear_arith)
                    requires
                        l <= 7,
                        0 <= stride,
                ;
            }
            let g = l * stride + t;
            if g < flags.len() {
                if flags[g] {
                    lv.v[l] = u32::MAX;
                }
            }
            l += 1;
        }
        outv.push(lv);
        t += 1;
    }
    let out = PaddedHashes { lanes: outv, padding: hashed.padding };
    proof {
        assert(out.wf());
        let stri = stride as int;
        assert forall|l: int, t2: int|
            0 <= l < 8 && 0 <= t2 < out.lanes@.len() && l * stri + t2 < num_kmers(kk, nn) implies #[trigger] out
            .lanes@[t2].v@[l] == masked_kmer_hashes_of(h, seq@, amb@)[l * stri + t2] by {
            let g = l * stri + t2;
            assert(masked_kmer_hashes_of(h, seq@, amb@)[g] == (if window_amb(amb@, g, kk) {
                u32::MAX
            } else {
                h.spec_kmer_hash(seq@.subrange(g, g + kk))
            }));
            assert(kmer_hashes_of(h, seq@)[g] == h.spec_kmer_hash(seq@.subrange(g, g + kk)));
        }
        if context == 1 {
            assert(out.flat().len() == num_kmers(kk, nn)) by {
                assert(out.lanes@.len() == hashed.lanes@.len());
            }
            assert forall|j: int| 0 <= j < out.flat().len() implies out.flat()[j]
                == masked_kmer_hashes_of(h, seq@, amb@)[j] by {
                let lc = out.lanes@.len() as int;
                assert(lc == stri);
                let l = j / lc;
                let t2 = j % lc;
                lemma_fundamental_div_mod(j, lc);
                lemma_mod_bound(j, lc);
                assert(0 <= l < 8) by (nonlinear_arith)
                    requires
                        0 < lc,
                        j == lc * l + t2,
                        0 <= t2 < lc,
                        0 <= j < 8 * lc,
                ;
                assert(l * stri + t2 == j) by (nonlinear_arith)
                    requires
                        j == lc * l + t2,
                        lc == stri,
                ;
                assert(out.flat()[j] == out.lanes@[t2].v@[l]);
            }
            assert(out.flat() =~= masked_kmer_hashes_of(h, seq@, amb@));
        }
    }
    out
}

} // verus!
