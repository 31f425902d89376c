//! Streaming k-mer hashing.
//!
//! For every window of `k` consecutive symbols of a 2-bit (or up to 8-bit)
//! alphabet, a [`KmerHasher`] produces a pseudo-random 32-bit value.  Three
//! families are provided: the table-driven `NtHasher`, the multiplicative
//! `MulHasher`, and the anti-lexicographic `AntiLexHasher`.  Each family
//! supports a *forward* mode, sensitive to the exact window, and a
//! *canonical* mode, invariant under reverse complementation.
//!
//! Hashes can be computed one window at a time ([`KmerHasher::hash_seq`]),
//! by scalar streaming ([`KmerHasher::hash_kmers_scalar`]), or in eight
//! lock-stepped lanes ([`KmerHasher::hash_kmers_simd`]); the contracts state
//! that all paths agree position for position.  The `hash_valid_kmers`
//! variants force the sentinel `u32::MAX` on every window that overlaps a
//! flagged ("ambiguous") symbol.
pub mod anti_lex;
pub mod bits;
pub mod nthash;
pub mod stream;
pub mod trusted;

pub use anti_lex::AntiLexHasher;
pub use nthash::{MulHasher, NtHasher};

use vstd::prelude::*;

verus! {

use crate::stream::{PaddedHashes, RollingState};

/// Complement of a 2-bit encoded nucleotide: `0 <> 2` and `1 <> 3`.
pub open spec fn spec_complement(b: u8) -> u8 {
    b ^ 2
}

/// A sequence read backward with every symbol complemented.
pub open spec fn spec_revcomp(s: Seq<u8>) -> Seq<u8> {
    Seq::new(s.len(), |i: int| spec_complement(s[s.len() - 1 - i]))
}

/// The symbol at position `j`, with positions outside the sequence reading
/// as the placeholder symbol 0.
pub open spec fn sym_at(s: Seq<u8>, j: int) -> u8 {
    if 0 <= j < s.len() {
        s[j]
    } else {
        0
    }
}

/// The symbol removed at step `j` of a windowed stream with lag `d`: the
/// incoming stream delayed by `d` steps, with placeholder 0 before that.
pub open spec fn lag_sym(s: Seq<u8>, d: int, j: int) -> u8 {
    if j >= d {
        sym_at(s, j - d)
    } else {
        0
    }
}

/// A run of `n` placeholder symbols.
pub open spec fn zero_seq(n: nat) -> Seq<u8> {
    Seq::new(n, |i: int| 0u8)
}

/// How many length-`k` windows a sequence of `n` symbols has.
pub open spec fn num_kmers(k: int, n: int) -> int {
    if n >= k {
        n - k + 1
    } else {
        0
    }
}

/// Does the window of `k` symbols starting at `i` overlap a flagged position?
pub open spec fn window_amb(amb: Seq<bool>, i: int, k: int) -> bool {
    exists|j: int| i <= j < i + k && amb[j]
}

/// The windowed rolling protocol of one hash family.
///
/// A hasher is built once for a fixed window length `k` (so it can
/// precompute its per-symbol constants) and is then shared, read-only, by
/// any number of streams.  The per-stream mutable state is an explicit
/// [`RollingState`], advanced by [`RollingHasher::in_out_step`] once per
/// incoming/outgoing symbol pair.  The proof obligations here are what
/// make the bulk drivers of [`KmerHasher`] correct: the stream invariant
/// is preserved step by step, and a full window's step emits exactly the
/// window's hash.
pub trait RollingHasher: Sized {
    /// The hasher's construction-time invariant.
    spec fn wf(&self) -> bool;

    /// The window length this hasher was built for.
    spec fn spec_k(&self) -> int;

    /// True when the hash is invariant under reverse complementation.
    spec fn spec_canonical(&self) -> bool;

    /// How many steps the windowed protocol runs before the removed symbol
    /// matters; at most `k - 1`.
    spec fn spec_delay(&self) -> int;

    /// Which symbols this hasher accepts.
    spec fn valid_sym(&self, b: u8) -> bool;

    /// The rolling state a windowed stream starts from.
    spec fn spec_init(&self) -> RollingState;

    /// One windowed update: `a` enters, `r` leaves.
    spec fn spec_step(&self, st: RollingState, a: u8, r: u8) -> RollingState;

    /// The value emitted by the windowed update on state `st`.
    spec fn spec_out(&self, st: RollingState, a: u8, r: u8) -> u32;

    /// One one-shot update at position `i` of a sequence of length `n`.
    spec fn spec_prefix_step(&self, st: RollingState, a: u8, i: int, n: int) -> RollingState;

    /// The value emitted by the one-shot update at position `i`.
    spec fn spec_prefix_out(&self, st: RollingState, a: u8, i: int, n: int) -> u32;

    /// The hash of one window `w` of exactly `k` symbols.
    spec fn spec_kmer_hash(&self, w: Seq<u8>) -> u32;

    /// The hash of the prefix of `s` of length `i + 1`, as the one-shot
    /// pass over all of `s` computes it.
    spec fn spec_prefix_hash(&self, s: Seq<u8>, i: int) -> u32;

    /// What the rolling state holds before step `j` of the windowed
    /// protocol over `s`.
    spec fn spec_stream_inv(&self, s: Seq<u8>, j: int, st: RollingState) -> bool;

    /// What the rolling state holds before step `i` of the one-shot pass
    /// over `s`.
    spec fn spec_prefix_inv(&self, s: Seq<u8>, i: int, st: RollingState) -> bool;

    /// Basic consequences of well-formedness.
    proof fn lemma_wf_facts(&self)
        requires
            self.wf(),
        ensures
            1 <= self.spec_k(),
            0 <= self.spec_delay() < self.spec_k(),
            self.valid_sym(0),
    ;

    /// The initial rolling state satisfies the stream invariant.
    proof fn lemma_stream_init(&self, s: Seq<u8>)
        requires
            self.wf(),
        ensures
            self.spec_stream_inv(s, 0, self.spec_init()),
    ;

    /// One windowed step preserves the stream invariant, and once the
    /// window is full it emits exactly the hash of the window ending at
    /// the incoming symbol.
    proof fn lemma_stream_step(&self, s: Seq<u8>, j: int, st: RollingState)
        requires
            self.wf(),
            forall|q: int| 0 <= q < s.len() ==> self.valid_sym(#[trigger] s[q]),
            0 <= j < s.len(),
            self.spec_stream_inv(s, j, st),
        ensures
            self.spec_stream_inv(
                s,
                j + 1,
                self.spec_step(st, s[j], lag_sym(s, self.spec_delay(), j)),
            ),
            j >= self.spec_k() - 1 ==> self.spec_out(st, s[j], lag_sym(s, self.spec_delay(), j))
                == self.spec_kmer_hash(s.subrange(j - self.spec_k() + 1, j + 1)),
    ;

    /// The zeroed state satisfies the one-shot invariant.
    proof fn lemma_prefix_init(&self, s: Seq<u8>)
        requires
            self.wf(),
        ensures
            self.spec_prefix_inv(s, 0, RollingState { fw: 0, rc: 0 }),
    ;

    /// One one-shot step preserves its invariant and emits the hash of the
    /// prefix ending at the incoming symbol.
    proof fn lemma_prefix_step(&self, s: Seq<u8>, i: int, st: RollingState)
        requires
            self.wf(),
            forall|q: int| 0 <= q < s.len() ==> self.valid_sym(#[trigger] s[q]),
            0 <= i < s.len(),
            self.spec_prefix_inv(s, i, st),
        ensures
            self.spec_prefix_inv(s, i + 1, self.spec_prefix_step(st, s[i], i, s.len() as int)),
            self.spec_prefix_out(st, s[i], i, s.len() as int) == self.spec_prefix_hash(s, i),
    ;

    /// The one-shot pass agrees with the windowed hash: on a sequence of
    /// exactly `k` symbols its last output is the window's hash.
    proof fn lemma_prefix_matches_kmer(&self, w: Seq<u8>)
        requires
            self.wf(),
            forall|q: int| 0 <= q < w.len() ==> self.valid_sym(#[trigger] w[q]),
            w.len() == self.spec_k(),
        ensures
            self.spec_prefix_hash(w, self.spec_k() - 1) == self.spec_kmer_hash(w),
    ;

    /// A canonical hasher gives a window and its reverse complement the
    /// same hash.
    proof fn lemma_canonical_revcomp(&self, w: Seq<u8>)
        requires
            self.wf(),
            self.spec_canonical(),
            forall|q: int| 0 <= q < w.len() ==> self.valid_sym(#[trigger] w[q]),
            w.len() == self.spec_k(),
        ensures
            self.spec_kmer_hash(spec_revcomp(w)) == self.spec_kmer_hash(w),
    ;

    /// The window length.
    fn k(&self) -> (r: usize)
        requires
            self.wf(),
        ensures
            r as int == self.spec_k(),
    ;

    /// True when the hash is invariant under reverse complementation.
    fn is_canonical(&self) -> (r: bool)
        ensures
            r == self.spec_canonical(),
    ;

    /// The lag between the incoming and the removed symbol of the windowed
    /// protocol.
    fn delay(&self) -> (r: usize)
        requires
            self.wf(),
        ensures
            r as int == self.spec_delay(),
    ;

    /// The rolling state a windowed stream starts from.
    fn init_state(&self) -> (st: RollingState)
        requires
            self.wf(),
        ensures
            st == self.spec_init(),
    ;

    /// One windowed update: symbol `a` enters the window, `r` leaves it.
    /// Returns the hash of the window ending at the incoming symbol.
    fn in_out_step(&self, st: &mut RollingState, a: u8, r: u8) -> (out: u32)
        requires
            self.wf(),
            self.valid_sym(a),
            self.valid_sym(r),
        ensures
            *final(st) == self.spec_step(*old(st), a, r),
            out == self.spec_out(*old(st), a, r),
    ;

    /// One one-shot update: symbol `a` at position `i` of a sequence of
    /// length `n`.  Returns the hash of the prefix ending at `i`.
    fn prefix_step(&self, st: &mut RollingState, a: u8, i: usize, n: usize) -> (out: u32)
        requires
            self.wf(),
            self.valid_sym(a),
            i < n,
        ensures
            *final(st) == self.spec_prefix_step(*old(st), a, i as int, n as int),
            out == self.spec_prefix_out(*old(st), a, i as int, n as int),
    ;

}

/// A hasher for all k-mers of a sequence, in bulk: one-shot, scalar
/// streaming, lane-parallel, and ambiguity-masked forms.
pub trait KmerHasher: RollingHasher {
    /// Hash the whole of `seq` as one window, one symbol at a time.
    /// Ignores `k`; the empty sequence hashes to 0.
    fn hash_seq(&self, seq: &[u8]) -> (r: u32)
        requires
            self.wf(),
            forall|q: int| 0 <= q < seq@.len() ==> self.valid_sym(#[trigger] seq@[q]),
        ensures
            r == if seq@.len() == 0 {
                0u32
            } else {
                self.spec_prefix_hash(seq@, seq@.len() - 1)
            },
    ;

    /// Hash every non-empty prefix of `seq`. Ignores `k`.
    fn hash_prefixes(&self, seq: &[u8]) -> (out: Vec<u32>)
        requires
            self.wf(),
            forall|q: int| 0 <= q < seq@.len() ==> self.valid_sym(#[trigger] seq@[q]),
        ensures
            out@.len() == seq@.len(),
            forall|i: int| 0 <= i < seq@.len() ==> out@[i] == self.spec_prefix_hash(seq@, i),
    ;

    /// The hash of every window of `seq`, streamed left to right in one
    /// scalar pass.
    fn hash_kmers_scalar(&self, seq: &[u8]) -> (out: Vec<u32>)
        requires
            self.wf(),
            forall|q: int| 0 <= q < seq@.len() ==> self.valid_sym(#[trigger] seq@[q]),
        ensures
            out@.len() == num_kmers(self.spec_k(), seq@.len() as int),
            forall|i: int|
                0 <= i < out@.len() ==> out@[i] == self.spec_kmer_hash(
                    #[trigger] seq@.subrange(i, i + self.spec_k()),
                ),
    ;

    /// The hash of every window of `seq`, computed in eight lock-stepped
    /// lanes over eight chunks of the sequence.
    ///
    /// `context` is the number of overlapping window positions the caller
    /// wants repeated across neighbouring lanes (1 when the hashes alone
    /// are wanted).  With `context == 1`, flattening the lanes gives
    /// exactly the scalar stream.
    fn hash_kmers_simd(&self, seq: &[u8], context: usize) -> (out: PaddedHashes)
        requires
            self.wf(),
            forall|q: int| 0 <= q < seq@.len() ==> self.valid_sym(#[trigger] seq@[q]),
            1 <= context,
            seq@.len() + context <= usize::MAX / 32,
        ensures
            out.wf(),
            out.lanes@.len() == crate::stream::simd_lane_len(
                self.spec_k(),
                context as int,
                seq@.len() as int,
            ),
            out.padding == crate::stream::simd_padding(
                self.spec_k(),
                context as int,
                seq@.len() as int,
            ),
            forall|l: int, t: int|
                #![trigger out.lanes@[t].v@[l]]
                {
                    let stride = crate::stream::simd_stride(
                        self.spec_k(),
                        context as int,
                        seq@.len() as int,
                    );
                    0 <= l < 8 && 0 <= t < out.lanes@.len() && l * stride + t < num_kmers(
                        self.spec_k(),
                        seq@.len() as int,
                    ) ==> out.lanes@[t].v@[l] == self.spec_kmer_hash(
                        seq@.subrange(l * stride + t, l * stride + t + self.spec_k()),
                    )
                },
            context == 1 ==> out.flat().len() == num_kmers(self.spec_k(), seq@.len() as int)
                && (forall|i: int|
                0 <= i < out.flat().len() ==> out.flat()[i] == self.spec_kmer_hash(
                    #[trigger] seq@.subrange(i, i + self.spec_k()),
                )),
    ;

    /// As [`KmerHasher::hash_kmers_scalar`], but every window that overlaps
    /// a flagged position yields the sentinel `u32::MAX` instead; all other
    /// windows yield the unmasked hash.
    fn hash_valid_kmers_scalar(&self, seq: &[u8], ambiguous: &[bool]) -> (out: Vec<u32>)
        requires
            self.wf(),
            forall|q: int| 0 <= q < seq@.len() ==> self.valid_sym(#[trigger] seq@[q]),
            ambiguous@.len() == seq@.len(),
        ensures
            out@.len() == num_kmers(self.spec_k(), seq@.len() as int),
            forall|i: int|
                0 <= i < out@.len() ==> out@[i] == (if window_amb(ambiguous@, i, self.spec_k()) {
                    u32::MAX
                } else {
                    self.spec_kmer_hash(#[trigger] seq@.subrange(i, i + self.spec_k()))
                }),
    ;

    /// As [`KmerHasher::hash_kmers_simd`], with ambiguous windows replaced
    /// by the sentinel `u32::MAX` lane by lane.
    fn hash_valid_kmers_simd(&self, seq: &[u8], ambiguous: &[bool], context: usize) -> (out:
        PaddedHashes)
        requires
            self.wf(),
            forall|q: int| 0 <= q < seq@.len() ==> self.valid_sym(#[trigger] seq@[q]),
            ambiguous@.len() == seq@.len(),
            1 <= context,
            seq@.len() + context <= usize::MAX / 32,
        ensures
            out.wf(),
            out.lanes@.len() == crate::stream::simd_lane_len(
                self.spec_k(),
                context as int,
                seq@.len() as int,
            ),
            out.padding == crate::stream::simd_padding(
                self.spec_k(),
                context as int,
                seq@.len() as int,
            ),
            forall|l: int, t: int|
                #![trigger out.lanes@[t].v@[l]]
                {
                    let stride = crate::stream::simd_stride(
                        self.spec_k(),
                        context as int,
                        seq@.len() as int,
                    );
                    0 <= l < 8 && 0 <= t < out.lanes@.len() && l * stride + t < num_kmers(
                        self.spec_k(),
                        seq@.len() as int,
                    ) ==> out.lanes@[t].v@[l] == (if window_amb(
                        ambiguous@,
                        l * stride + t,
                        self.spec_k(),
                    ) {
                        u32::MAX
                    } else {
                        self.spec_kmer_hash(
                            seq@.subrange(l * stride + t, l * stride + t + self.spec_k()),
                        )
                    })
                },
            context == 1 ==> out.flat().len() == num_kmers(self.spec_k(), seq@.len() as int)
                && (forall|i: int|
                0 <= i < out.flat().len() ==> out.flat()[i] == (if window_amb(
                    ambiguous@,
                    i,
                    self.spec_k(),
                ) {
                    u32::MAX
                } else {
                    self.spec_kmer_hash(#[trigger] seq@.subrange(i, i + self.spec_k()))
                })),
    ;
}

/// Every symbol of `s` is one the hasher accepts.
pub open spec fn all_valid<H: RollingHasher>(h: &H, s: Seq<u8>) -> bool {
    forall|i: int| 0 <= i < s.len() ==> h.valid_sym(#[trigger] s[i])
}

/// The hash of every window of `s`, in order of the window's start.
pub open spec fn kmer_hashes_of<H: RollingHasher>(h: &H, s: Seq<u8>) -> Seq<u32> {
    Seq::new(
        num_kmers(h.spec_k(), s.len() as int) as nat,
        |i: int| h.spec_kmer_hash(s.subrange(i, i + h.spec_k())),
    )
}

/// As [`kmer_hashes_of`], with every window that overlaps a flagged
/// position replaced by the sentinel `u32::MAX`.
pub open spec fn masked_kmer_hashes_of<H: RollingHasher>(h: &H, s: Seq<u8>, amb: Seq<bool>) -> Seq<
    u32,
> {
    Seq::new(
        num_kmers(h.spec_k(), s.len() as int) as nat,
        |i: int|
            if window_amb(amb, i, h.spec_k()) {
                u32::MAX
            } else {
                h.spec_kmer_hash(s.subrange(i, i + h.spec_k()))
            },
    )
}

/// Reverse complementation is an involution.
pub proof fn lemma_revcomp_involution(s: Seq<u8>)
    ensures
        spec_revcomp(spec_revcomp(s)) == s,
{
    let rs = spec_revcomp(s);
    assert forall|q: int| 0 <= q < s.len() implies spec_revcomp(rs)[q] == s[q] by {
        assert(spec_revcomp(rs)[q] == spec_complement(rs[rs.len() - 1 - q]));
        assert(rs[rs.len() - 1 - q] == spec_complement(s[q]));
        crate::bits::lemma_complement_sym(s[q]);
    }
    assert(spec_revcomp(spec_revcomp(s)) =~= s);
}

/// One-shot hashing of a full window agrees with the streamed hash of that
/// window: entry `i` of the stream equals the one-shot hash of the window
/// starting at `i`.  Together with the contracts of
/// [`KmerHasher::hash_kmers_scalar`] and [`KmerHasher::hash_kmers_simd`],
/// this says that the naive, scalar and lane-parallel paths all agree.
pub proof fn lemma_one_shot_matches_stream<H: RollingHasher>(h: &H, s: Seq<u8>, i: int)
    requires
        h.wf(),
        all_valid(h, s),
        0 <= i < num_kmers(h.spec_k(), s.len() as int),
    ensures
        h.spec_prefix_hash(s.subrange(i, i + h.spec_k()), h.spec_k() - 1) == kmer_hashes_of(
            h,
            s,
        )[i],
{
    let w = s.subrange(i, i + h.spec_k());
    h.lemma_wf_facts();
    assert forall|q: int| 0 <= q < w.len() implies h.valid_sym(#[trigger] w[q]) by {
        assert(w[q] == s[i + q]);
    }
    h.lemma_prefix_matches_kmer(w);
}

/// The canonical stream of a sequence, reversed, is the canonical stream of
/// the sequence's reverse complement.
pub proof fn lemma_canonical_stream_reverse<H: RollingHasher>(h: &H, s: Seq<u8>)
    requires
        h.wf(),
        h.spec_canonical(),
        all_valid(h, s),
    ensures
        kmer_hashes_of(h, spec_revcomp(s)) == kmer_hashes_of(h, s).reverse(),
{
    h.lemma_wf_facts();
    let k = h.spec_k();
    let n = s.len() as int;
    let lhs = kmer_hashes_of(h, spec_revcomp(s));
    let rhs = kmer_hashes_of(h, s).reverse();
    assert(lhs.len() == rhs.len());
    assert forall|i: int| 0 <= i < lhs.len() implies lhs[i] == rhs[i] by {
        let w = s.subrange(n - k - i, n - i);
        let v1 = spec_revcomp(s).subrange(i, i + k);
        let v2 = spec_revcomp(w);
        assert forall|q: int| 0 <= q < k implies v1[q] == v2[q] by {
            assert(v1[q] == spec_revcomp(s)[i + q]);
            assert(v2[q] == spec_complement(w[k - 1 - q]));
            assert(w[k - 1 - q] == s[n - 1 - i - q]);
        }
        assert(v1 =~= v2);
        assert forall|q: int| 0 <= q < w.len() implies h.valid_sym(#[trigger] w[q]) by {
            assert(w[q] == s[n - k - i + q]);
        }
        h.lemma_canonical_revcomp(w);
        assert(rhs[i] == kmer_hashes_of(h, s)[n - k + 1 - 1 - i]);
    }
    assert(lhs =~= rhs);
}

} // verus!
