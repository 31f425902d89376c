//! The table-driven and multiplicative per-symbol hash families.
//!
//! Both families share one rolling scheme: the forward accumulator is
//! rotated left by `R` bits and combined by exclusive-or with the incoming
//! symbol's hash; the reverse-complement accumulator mirrors this with
//! right rotations and complemented symbols.  A symbol's contribution can
//! be cancelled `k - 1` steps later because by then it has been rotated by
//! exactly `(k - 1) * R` bits.  The [`CharHasher`] trait captures what the
//! rolling engine needs of a family: a per-symbol hash `f`, the hash `c`
//! of the symbol's complement, and both pre-rotated by `(k - 1) * R` bits.
use vstd::prelude::*;

verus! {

use crate::bits::{
    lemma_complement_sym, lemma_rot_amt_reduce, lemma_rotl_i_compose, lemma_rotl_i_xor,
    lemma_rotl_i_zero, lemma_rotl_i_zero_word, lemma_xor_basics, lemma_xor_swap, rot_amt, rotl,
    rotl_i, rotr,
};
use crate::stream::{PaddedHashes, RollingState};
use crate::trusted::{complement_base, mix_seed, seed_mix};
use crate::{KmerHasher, RollingHasher, lag_sym, spec_complement, spec_revcomp, sym_at, zero_seq};
use vstd::arithmetic::div_mod::lemma_mul_mod_noop_general;

/// The base ntHash value for 2-bit symbol 0.
pub const NT_SEED_0: u32 = 0x95c6_0474;

/// The base ntHash value for 2-bit symbol 1.
pub const NT_SEED_1: u32 = 0x62a0_2b4c;

/// The base ntHash value for 2-bit symbol 2.
pub const NT_SEED_2: u32 = 0x8257_2324;

/// The base ntHash value for 2-bit symbol 3.
pub const NT_SEED_3: u32 = 0x4be2_4456;

/// The odd mixing constant of the multiplicative family.
pub const MUL_MIX: u32 = 0x2722_0a95;

/// The base ntHash value for symbol `i`.
pub open spec fn spec_nt_seed(i: int) -> u32 {
    if i == 0 {
        NT_SEED_0
    } else if i == 1 {
        NT_SEED_1
    } else if i == 2 {
        NT_SEED_2
    } else {
        NT_SEED_3
    }
}

/// The forward table entry for symbol `i`: the base value, or for a seeded
/// hasher the base value combined with the seed and remixed.
pub open spec fn spec_nt_table(i: int, seed: Option<u32>) -> u32 {
    match seed {
        Option::None => spec_nt_seed(i),
        Option::Some(sd) => (seed_mix(spec_nt_seed(i) ^ sd) % 0x1_0000_0000) as u32,
    }
}

/// The base ntHash value for symbol `i`.
fn nt_seed(i: usize) -> (r: u32)
    requires
        i < 4,
    ensures
        r == spec_nt_seed(i as int),
{
    if i == 0 {
        NT_SEED_0
    } else if i == 1 {
        NT_SEED_1
    } else if i == 2 {
        NT_SEED_2
    } else {
        NT_SEED_3
    }
}

/// The forward table entry for symbol `i`.
fn nt_entry(i: usize, seed: Option<u32>) -> (r: u32)
    requires
        i < 4,
    ensures
        r == spec_nt_table(i as int, seed),
{
    let base = nt_seed(i);
    match seed {
        Option::None => base,
        Option::Some(sd) => (mix_seed(base ^ sd) % 0x1_0000_0000) as u32,
    }
}

/// The reduced rotation amount for a departing symbol's contribution:
/// `(k - 1) * r` whole-word turns removed.
fn rot_for(k: usize, r: u32) -> (amt: u32)
    requires
        1 <= k,
    ensures
        amt == rot_amt((k as int - 1) * (r as int)),
        amt < 32,
{
    let a = ((k - 1) % 32) as u64;
    let b = (r % 32) as u64;
    proof {
        assert(a * b <= 31 * 31) by (nonlinear_arith)
            requires
                a <= 31,
                b <= 31,
                0 <= a,
                0 <= b,
        ;
    }
    let amt = ((a * b) % 32) as u32;
    proof {
        lemma_mul_mod_noop_general(k as int - 1, r as int, 32);
    }
    amt
}

/// A per-symbol hash family: the capability the rolling engine needs.
///
/// `f` hashes a symbol, `c` hashes its complement; `f_rot` and `c_rot` are
/// the same values rotated left by `(k - 1) * R` bits, used to cancel a
/// departing symbol's contribution.
pub trait CharHasher: Sized {
    /// The family's construction-time invariant.
    spec fn char_wf(&self) -> bool;

    /// The window length this hasher was built for.
    spec fn char_k(&self) -> int;

    /// The number of bits the accumulator rotates per symbol.
    spec fn char_r(&self) -> u32;

    /// True when forward and reverse-complement hashes are summed.
    spec fn char_canonical(&self) -> bool;

    /// Which symbols the family accepts.
    spec fn char_valid(&self, b: u8) -> bool;

    /// The hash of symbol `b`.
    spec fn spec_f(&self, b: u8) -> u32;

    /// The hash of the complement of symbol `b`.
    spec fn spec_c(&self, b: u8) -> u32;

    /// Basic consequences of well-formedness: the placeholder symbol is
    /// accepted, complements stay within the alphabet, and `c` is `f` of
    /// the complement.
    proof fn lemma_char_facts(&self)
        requires
            self.char_wf(),
        ensures
            1 <= self.char_k(),
            self.char_valid(0),
            forall|b: u8| self.char_valid(b) ==> self.char_valid(#[trigger] spec_complement(b)),
            forall|b: u8|
                self.char_valid(b) ==> #[trigger] self.spec_c(b) == self.spec_f(
                    spec_complement(b),
                ),
    ;

    /// Build a hasher for windows of `k` symbols, optionally reseeded.
    fn new_with_seed(k: usize, seed: Option<u32>) -> (res: Self)
        requires
            1 <= k,
        ensures
            res.char_wf(),
            res.char_k() == k as int,
    ;

    /// The window length.
    fn k(&self) -> (r: usize)
        requires
            self.char_wf(),
        ensures
            r as int == self.char_k(),
    ;

    /// The per-symbol rotation.
    fn rot(&self) -> (r: u32)
        ensures
            r == self.char_r(),
    ;

    /// True when forward and reverse-complement hashes are summed.
    fn canonical(&self) -> (r: bool)
        ensures
            r == self.char_canonical(),
    ;

    /// Hash symbol `b`.
    fn f(&self, b: u8) -> (res: u32)
        requires
            self.char_wf(),
            self.char_valid(b),
        ensures
            res == self.spec_f(b),
    ;

    /// Hash the complement of symbol `b`.
    fn c(&self, b: u8) -> (res: u32)
        requires
            self.char_wf(),
            self.char_valid(b),
        ensures
            res == self.spec_c(b),
    ;

    /// Hash symbol `b`, rotated left by `(k - 1) * R` bits.
    fn f_rot(&self, b: u8) -> (res: u32)
        requires
            self.char_wf(),
            self.char_valid(b),
        ensures
            res == rotl_i(self.spec_f(b), (self.char_k() - 1) * (self.char_r() as int)),
    ;

    /// Hash the complement of symbol `b`, rotated left by `(k - 1) * R`
    /// bits.
    fn c_rot(&self, b: u8) -> (res: u32)
        requires
            self.char_wf(),
            self.char_valid(b),
        ensures
            res == rotl_i(self.spec_c(b), (self.char_k() - 1) * (self.char_r() as int)),
    ;
}

/// The forward accumulator after feeding the symbols of `s` in order:
/// each symbol's hash enters at the bottom and is rotated left by `R` for
/// every later symbol.
pub open spec fn fw_of<CH: CharHasher>(h: &CH, s: Seq<u8>) -> u32
    decreases s.len(),
{
    if s.len() == 0 {
        0
    } else {
        rotl_i(fw_of(h, s.drop_last()), h.char_r() as int) ^ h.spec_f(s.last())
    }
}

/// The reverse-complement accumulator after feeding the symbols of `s` in
/// order: each symbol's complement hash enters pre-rotated by
/// `(k - 1) * R` bits and is rotated right by `R` for every later symbol.
pub open spec fn rc_of<CH: CharHasher>(h: &CH, s: Seq<u8>) -> u32
    decreases s.len(),
{
    if s.len() == 0 {
        0
    } else {
        rotl_i(rc_of(h, s.drop_last()), -(h.char_r() as int)) ^ rotl_i(
            h.spec_c(s.last()),
            (h.char_k() - 1) * (h.char_r() as int),
        )
    }
}

/// Prepending a symbol to the stream adds its hash rotated by one `R` per
/// following symbol.
proof fn lemma_fw_prepend<CH: CharHasher>(h: &CH, s: Seq<u8>, y: u8)
    ensures
        fw_of(h, seq![y] + s) == fw_of(h, s) ^ rotl_i(
            h.spec_f(y),
            s.len() * (h.char_r() as int),
        ),
    decreases s.len(),
{
    let rr = h.char_r() as int;
    let u = seq![y] + s;
    if s.len() == 0 {
        assert(u.len() == 1);
        assert(u.drop_last() =~= Seq::<u8>::empty());
        assert(u.last() == y);
        lemma_rotl_i_zero_word(rr);
        lemma_rotl_i_zero(h.spec_f(y));
        lemma_xor_basics(h.spec_f(y), 0);
        assert(s.len() * (h.char_r() as int) == 0) by (nonlinear_arith)
            requires
                s.len() == 0,
        ;
        assert(fw_of(h, Seq::<u8>::empty()) == 0);
        assert(fw_of(h, u) == rotl_i(0u32, rr) ^ h.spec_f(y));
    } else {
        let dl = s.drop_last();
        assert(u.drop_last() =~= seq![y] + dl);
        assert(u.last() == s.last());
        lemma_fw_prepend(h, dl, y);
        lemma_rotl_i_xor(fw_of(h, dl), rotl_i(h.spec_f(y), (s.len() - 1) * rr), rr);
        lemma_rotl_i_compose(h.spec_f(y), (s.len() - 1) * rr, rr);
        assert((s.len() - 1) * rr + rr == s.len() * rr) by (nonlinear_arith);
        lemma_xor_swap(
            rotl_i(fw_of(h, dl), rr),
            rotl_i(h.spec_f(y), s.len() * rr),
            h.spec_f(s.last()),
        );
    }
}

/// Prepending a symbol to the stream adds its complement hash at the
/// rotation it will have aged to when the window ends.
proof fn lemma_rc_prepend<CH: CharHasher>(h: &CH, s: Seq<u8>, y: u8)
    ensures
        rc_of(h, seq![y] + s) == rc_of(h, s) ^ rotl_i(
            h.spec_c(y),
            (h.char_k() - 1 - s.len()) * (h.char_r() as int),
        ),
    decreases s.len(),
{
    let k = h.char_k();
    let rr = h.char_r() as int;
    let u = seq![y] + s;
    if s.len() == 0 {
        assert(u.len() == 1);
        assert(u.drop_last() =~= Seq::<u8>::empty());
        assert(u.last() == y);
        lemma_rotl_i_zero_word(-rr);
        lemma_xor_basics(rotl_i(h.spec_c(y), (k - 1) * rr), 0);
        assert((k - 1 - s.len()) * rr == (k - 1) * rr) by (nonlinear_arith)
            requires
                s.len() == 0,
        ;
        assert(rc_of(h, Seq::<u8>::empty()) == 0);
        assert(rc_of(h, u) == rotl_i(0u32, -rr) ^ rotl_i(h.spec_c(y), (k - 1) * rr));
    } else {
        let dl = s.drop_last();
        assert(u.drop_last() =~= seq![y] + dl);
        assert(u.last() == s.last());
        lemma_rc_prepend(h, dl, y);
        lemma_rotl_i_xor(rc_of(h, dl), rotl_i(h.spec_c(y), (k - 1 - (s.len() - 1)) * rr), -rr);
        lemma_rotl_i_compose(h.spec_c(y), (k - s.len()) * rr, -rr);
        assert((k - s.len()) * rr + (-rr) == (k - 1 - s.len()) * rr) by (nonlinear_arith);
        assert((k - 1 - (s.len() - 1)) * rr == (k - s.len()) * rr) by (nonlinear_arith);
        lemma_xor_swap(
            rotl_i(rc_of(h, dl), -rr),
            rotl_i(h.spec_c(y), (k - 1 - s.len()) * rr),
            rotl_i(h.spec_c(s.last()), (k - 1) * rr),
        );
    }
}

/// The reverse-complement accumulator is the forward accumulator of the
/// reverse complement, still short of `(k - len) * R` bits of rotation.
proof fn lemma_rc_as_revcomp<CH: CharHasher>(h: &CH, s: Seq<u8>)
    requires
        h.char_wf(),
        forall|q: int| 0 <= q < s.len() ==> h.char_valid(#[trigger] s[q]),
    ensures
        rc_of(h, s) == rotl_i(
            fw_of(h, spec_revcomp(s)),
            (h.char_k() - s.len()) * (h.char_r() as int),
        ),
    decreases s.len(),
{
    let k = h.char_k();
    let rr = h.char_r() as int;
    h.lemma_char_facts();
    if s.len() == 0 {
        assert(spec_revcomp(s).len() == 0);
        lemma_rotl_i_zero_word((k - 0) * rr);
    } else {
        let dl = s.drop_last();
        let ln = s.len() as int;
        assert(forall|q: int| 0 <= q < dl.len() ==> h.char_valid(#[trigger] dl[q]));
        lemma_rc_as_revcomp(h, dl);
        let y = spec_complement(s.last());
        assert(spec_revcomp(s) =~= seq![y] + spec_revcomp(dl)) by {
            let v1 = spec_revcomp(s);
            let v2 = seq![y] + spec_revcomp(dl);
            assert forall|q: int| 0 <= q < v1.len() implies v1[q] == v2[q] by {
                if q == 0 {
                } else {
                    assert(v2[q] == spec_revcomp(dl)[q - 1]);
                    assert(spec_revcomp(dl)[q - 1] == spec_complement(dl[dl.len() - q]));
                    assert(dl[dl.len() - q] == s[s.len() - 1 - q]);
                }
            }
        }
        lemma_fw_prepend(h, spec_revcomp(dl), y);
        assert(h.spec_f(y) == h.spec_c(s.last())) by {
            assert(h.char_valid(s.last()));
            assert(h.spec_c(s.last()) == h.spec_f(spec_complement(s.last())));
        }
        lemma_rotl_i_xor(
            fw_of(h, spec_revcomp(dl)),
            rotl_i(h.spec_f(y), (ln - 1) * rr),
            (k - ln) * rr,
        );
        lemma_rotl_i_compose(h.spec_f(y), (ln - 1) * rr, (k - ln) * rr);
        assert((ln - 1) * rr + (k - ln) * rr == (k - 1) * rr) by (nonlinear_arith);
        lemma_rotl_i_compose(fw_of(h, spec_revcomp(dl)), (k - ln + 1) * rr, -rr);
        assert((k - ln + 1) * rr + (-rr) == (k - ln) * rr) by (nonlinear_arith);
        assert((k - (ln - 1)) * rr == (k - ln + 1) * rr) by (nonlinear_arith);
    }
}

/// The `k - 1` symbols the rolling state remembers before step `j`:
/// positions `j - (k - 1)` to `j - 1`, with placeholder 0 before the
/// start of the sequence.
pub open spec fn win_before(s: Seq<u8>, k: int, j: int) -> Seq<u8> {
    Seq::new((k - 1) as nat, |q: int| sym_at(s, j - (k - 1) + q))
}

impl<CH: CharHasher> RollingHasher for CH {
    open spec fn wf(&self) -> bool {
        self.char_wf()
    }

    open spec fn spec_k(&self) -> int {
        self.char_k()
    }

    open spec fn spec_canonical(&self) -> bool {
        self.char_canonical()
    }

    open spec fn spec_delay(&self) -> int {
        self.char_k() - 1
    }

    open spec fn valid_sym(&self, b: u8) -> bool {
        self.char_valid(b)
    }

    open spec fn spec_init(&self) -> RollingState {
        RollingState {
            fw: fw_of(self, zero_seq((self.char_k() - 1) as nat)),
            rc: rc_of(self, zero_seq((self.char_k() - 1) as nat)),
        }
    }

    open spec fn spec_step(&self, st: RollingState, a: u8, r: u8) -> RollingState {
        RollingState {
            fw: (rotl_i(st.fw, self.char_r() as int) ^ self.spec_f(a)) ^ rotl_i(
                self.spec_f(r),
                (self.char_k() - 1) * (self.char_r() as int),
            ),
            rc: if self.char_canonical() {
                (rotl_i(st.rc, -(self.char_r() as int)) ^ rotl_i(
                    self.spec_c(a),
                    (self.char_k() - 1) * (self.char_r() as int),
                )) ^ self.spec_c(r)
            } else {
                st.rc
            },
        }
    }

    open spec fn spec_out(&self, st: RollingState, a: u8, r: u8) -> u32 {
        let fw_out = rotl_i(st.fw, self.char_r() as int) ^ self.spec_f(a);
        if self.char_canonical() {
            let rc_out = rotl_i(st.rc, -(self.char_r() as int)) ^ rotl_i(
                self.spec_c(a),
                (self.char_k() - 1) * (self.char_r() as int),
            );
            vstd::wrapping::u32_specs::wrapping_add(fw_out, rc_out)
        } else {
            fw_out
        }
    }

    open spec fn spec_prefix_step(&self, st: RollingState, a: u8, i: int, n: int) -> RollingState {
        RollingState {
            fw: rotl_i(st.fw, self.char_r() as int) ^ self.spec_f(a),
            rc: if self.char_canonical() {
                rotl_i(st.rc, -(self.char_r() as int)) ^ rotl_i(
                    self.spec_c(a),
                    (self.char_k() - 1) * (self.char_r() as int),
                )
            } else {
                st.rc
            },
        }
    }

    open spec fn spec_prefix_out(&self, st: RollingState, a: u8, i: int, n: int) -> u32 {
        let fw2 = rotl_i(st.fw, self.char_r() as int) ^ self.spec_f(a);
        if self.char_canonical() {
            let rc2 = rotl_i(st.rc, -(self.char_r() as int)) ^ rotl_i(
                self.spec_c(a),
                (self.char_k() - 1) * (self.char_r() as int),
            );
            vstd::wrapping::u32_specs::wrapping_add(fw2, rc2)
        } else {
            fw2
        }
    }

    open spec fn spec_kmer_hash(&self, w: Seq<u8>) -> u32 {
        if self.char_canonical() {
            vstd::wrapping::u32_specs::wrapping_add(fw_of(self, w), rc_of(self, w))
        } else {
            fw_of(self, w)
        }
    }

    open spec fn spec_prefix_hash(&self, s: Seq<u8>, i: int) -> u32 {
        if self.char_canonical() {
            vstd::wrapping::u32_specs::wrapping_add(
                fw_of(self, s.take(i + 1)),
                rc_of(self, s.take(i + 1)),
            )
        } else {
            fw_of(self, s.take(i + 1))
        }
    }

    open spec fn spec_stream_inv(&self, s: Seq<u8>, j: int, st: RollingState) -> bool {
        &&& st.fw == fw_of(self, win_before(s, self.char_k(), j))
        &&& (self.char_canonical() ==> st.rc == rc_of(self, win_before(s, self.char_k(), j)))
    }

    open spec fn spec_prefix_inv(&self, s: Seq<u8>, i: int, st: RollingState) -> bool {
        &&& st.fw == fw_of(self, s.take(i))
        &&& (self.char_canonical() ==> st.rc == rc_of(self, s.take(i)))
    }

    proof fn lemma_wf_facts(&self) {
        self.lemma_char_facts();
    }

    proof fn lemma_stream_init(&self, s: Seq<u8>) {
        self.lemma_char_facts();
        let k = self.char_k();
        let w1 = win_before(s, k, 0);
        let w2 = zero_seq((k - 1) as nat);
        assert forall|q: int| 0 <= q < w1.len() implies w1[q] == w2[q] by {
            assert(w1[q] == sym_at(s, 0 - (k - 1) + q));
        }
        assert(w1 =~= w2);
    }

    proof fn lemma_stream_step(&self, s: Seq<u8>, j: int, st: RollingState) {
        self.lemma_char_facts();
        let k = self.char_k();
        let rr = self.char_r() as int;
        let d = k - 1;
        let wprev = win_before(s, k, j);
        let wnext = win_before(s, k, j + 1);
        let wfull = Seq::new(k as nat, |q: int| sym_at(s, j - (k - 1) + q));
        assert(wfull.drop_last() =~= wprev);
        assert(wfull.last() == sym_at(s, j));
        assert(wfull.last() == s[j]);
        let y = wfull[0];
        assert(y == sym_at(s, j - (k - 1)));
        assert(lag_sym(s, d, j) == y);
        assert(fw_of(self, wfull) == rotl_i(st.fw, rr) ^ self.spec_f(s[j]));
        assert(wfull =~= seq![y] + wnext) by {
            let v2 = seq![y] + wnext;
            assert forall|q: int| 0 <= q < wfull.len() implies wfull[q] == v2[q] by {
                if q == 0 {
                } else {
                    assert(v2[q] == wnext[q - 1]);
                    assert(wnext[q - 1] == sym_at(s, j + 1 - (k - 1) + (q - 1)));
                }
            }
        }
        lemma_fw_prepend(self, wnext, y);
        assert(wnext.len() == k - 1);
        lemma_xor_basics(fw_of(self, wnext), rotl_i(self.spec_f(y), (k - 1) * rr));
        if self.char_canonical() {
            assert(rc_of(self, wfull) == rotl_i(st.rc, -rr) ^ rotl_i(
                self.spec_c(s[j]),
                (k - 1) * rr,
            ));
            lemma_rc_prepend(self, wnext, y);
            assert((k - 1 - (k - 1)) * rr == 0) by (nonlinear_arith);
            lemma_rotl_i_zero(self.spec_c(y));
            lemma_xor_basics(rc_of(self, wnext), self.spec_c(y));
        }
        if j >= k - 1 {
            assert(wfull =~= s.subrange(j - k + 1, j + 1)) by {
                let v2 = s.subrange(j - k + 1, j + 1);
                assert forall|q: int| 0 <= q < wfull.len() implies wfull[q] == v2[q] by {
                    assert(wfull[q] == sym_at(s, j - (k - 1) + q));
                }
            }
        }
    }

    proof fn lemma_prefix_init(&self, s: Seq<u8>) {
        assert(s.take(0) =~= Seq::<u8>::empty());
    }

    proof fn lemma_prefix_step(&self, s: Seq<u8>, i: int, st: RollingState) {
        let p = s.take(i + 1);
        assert(p.drop_last() =~= s.take(i));
        assert(p.last() == s[i]);
    }

    proof fn lemma_prefix_matches_kmer(&self, w: Seq<u8>) {
        assert(w.take(self.char_k()) =~= w);
    }

    proof fn lemma_canonical_revcomp(&self, w: Seq<u8>) {
        let k = self.char_k();
        let rr = self.char_r() as int;
        self.lemma_char_facts();
        lemma_rc_as_revcomp(self, w);
        assert((k - w.len()) * rr == 0) by (nonlinear_arith)
            requires
                k == w.len() as int,
        ;
        lemma_rotl_i_zero(fw_of(self, spec_revcomp(w)));
        let rw = spec_revcomp(w);
        assert(forall|q: int|
            0 <= q < rw.len() ==> #[trigger] rw[q] == spec_complement(w[w.len() - 1 - q]));
        assert forall|q: int| 0 <= q < rw.len() implies self.char_valid(#[trigger] rw[q]) by {
            assert(self.char_valid(w[w.len() - 1 - q]));
        }
        lemma_rc_as_revcomp(self, rw);
        assert((k - rw.len()) * rr == 0) by (nonlinear_arith)
            requires
                k == rw.len() as int,
        ;
        lemma_rotl_i_zero(fw_of(self, spec_revcomp(rw)));
        assert(spec_revcomp(rw) =~= w) by {
            assert forall|q: int| 0 <= q < w.len() implies spec_revcomp(rw)[q] == w[q] by {
                assert(spec_revcomp(rw)[q] == spec_complement(rw[rw.len() - 1 - q]));
                assert(rw[rw.len() - 1 - q] == spec_complement(w[q]));
                lemma_complement_sym(w[q]);
            }
        }
    }

    fn k(&self) -> usize {
        CharHasher::k(self)
    }

    fn is_canonical(&self) -> bool {
        self.canonical()
    }

    fn delay(&self) -> usize {
        proof {
            self.lemma_char_facts();
        }
        CharHasher::k(self) - 1
    }

    fn init_state(&self) -> (st: RollingState) {
        proof {
            self.lemma_char_facts();
        }
        let kk = CharHasher::k(self);
        let rbits = self.rot();
        let rr = rbits % 32;
        proof {
            lemma_rot_amt_reduce(rbits as int);
        }
        let f0 = self.f(0);
        let c0r = self.c_rot(0);
        let mut fw: u32 = 0;
        let mut rc: u32 = 0;
        let mut i: usize = 0;
        proof {
            assert(zero_seq(0) =~= Seq::<u8>::empty());
        }
        while i < kk - 1
            invariant
                self.char_wf(),
                kk as int == self.char_k(),
                1 <= kk,
                rbits == self.char_r(),
                rr == rbits % 32,
                rot_amt(-(rr as int)) == rot_amt(-(rbits as int)),
                f0 == self.spec_f(0),
                c0r == rotl_i(self.spec_c(0), (self.char_k() - 1) * (self.char_r() as int)),
                i <= kk - 1,
                fw == fw_of(self, zero_seq(i as nat)),
                rc == rc_of(self, zero_seq(i as nat)),
            decreases kk - 1 - i,
        {
            fw = rotl(fw, rr) ^ f0;
            rc = rotr(rc, rr) ^ c0r;
            i += 1;
            proof {
                assert(zero_seq(i as nat).drop_last() =~= zero_seq((i - 1) as nat));
                assert(zero_seq(i as nat).last() == 0);
            }
        }
        RollingState { fw, rc }
    }

    fn in_out_step(&self, st: &mut RollingState, a: u8, r: u8) -> (out: u32) {
        let rbits = self.rot();
        let rr = rbits % 32;
        proof {
            lemma_rot_amt_reduce(rbits as int);
        }
        let fw_out = rotl(st.fw, rr) ^ self.f(a);
        let new_fw = fw_out ^ self.f_rot(r);
        if self.canonical() {
            let rc_out = rotr(st.rc, rr) ^ self.c_rot(a);
            let new_rc = rc_out ^ self.c(r);
            st.fw = new_fw;
            st.rc = new_rc;
            fw_out.wrapping_add(rc_out)
        } else {
            st.fw = new_fw;
            fw_out
        }
    }

    fn prefix_step(&self, st: &mut RollingState, a: u8, i: usize, n: usize) -> (out: u32) {
        let rbits = self.rot();
        let rr = rbits % 32;
        proof {
            lemma_rot_amt_reduce(rbits as int);
        }
        let fw2 = rotl(st.fw, rr) ^ self.f(a);
        if self.canonical() {
            let rc2 = rotr(st.rc, rr) ^ self.c_rot(a);
            st.fw = fw2;
            st.rc = rc2;
            fw2.wrapping_add(rc2)
        } else {
            st.fw = fw2;
            fw2
        }
    }
}

impl<CH: CharHasher> KmerHasher for CH {
    fn hash_seq(&self, seq: &[u8]) -> u32 {
        crate::stream::run_seq_hash(self, seq)
    }

    fn hash_prefixes(&self, seq: &[u8]) -> Vec<u32> {
        crate::stream::run_prefixes(self, seq)
    }

    fn hash_kmers_scalar(&self, seq: &[u8]) -> Vec<u32> {
        crate::stream::run_scalar(self, seq)
    }

    fn hash_kmers_simd(&self, seq: &[u8], context: usize) -> PaddedHashes {
        crate::stream::run_simd(self, seq, context)
    }

    fn hash_valid_kmers_scalar(&self, seq: &[u8], ambiguous: &[bool]) -> Vec<u32> {
        crate::stream::run_valid_scalar(self, seq, ambiguous)
    }

    fn hash_valid_kmers_simd(&self, seq: &[u8], ambiguous: &[bool], context: usize) -> PaddedHashes {
        crate::stream::run_valid_simd(self, seq, ambiguous, context)
    }
}

/// The table-driven ntHash family: one 32-bit value per 2-bit symbol,
/// with the complement and pre-rotated tables precomputed.
///
/// With `CANONICAL` the forward and reverse-complement hashes are summed.
/// The accumulator rotates by `R` bits per symbol.
#[derive(Clone)]
pub struct NtHasher<const CANONICAL: bool, const R: u32> {
    pub k: usize,
    pub f: [u32; 4],
    pub c: [u32; 4],
    pub f_rot: [u32; 4],
    pub c_rot: [u32; 4],
}

impl<const CANONICAL: bool, const R: u32> NtHasher<CANONICAL, R> {
    /// Build the four tables for windows of `k` symbols.
    fn build(k: usize, seed: Option<u32>) -> (res: Self)
        requires
            1 <= k,
        ensures
            res.char_wf(),
            res.char_k() == k as int,
            forall|b: u8| b < 4 ==> #[trigger] res.spec_f(b) == spec_nt_table(b as int, seed),
    {
        proof {
            assert(0u8 ^ 2 == 2u8 && 1u8 ^ 2 == 3u8 && 2u8 ^ 2 == 0u8 && 3u8 ^ 2 == 1u8)
                by (bit_vector);
        }
        let mut f: [u32; 4] = [0u32; 4];
        f[0] = nt_entry(0, seed);
        f[1] = nt_entry(1, seed);
        f[2] = nt_entry(2, seed);
        f[3] = nt_entry(3, seed);
        let mut c: [u32; 4] = [0u32; 4];
        c[0] = f[complement_base(0) as usize];
        c[1] = f[complement_base(1) as usize];
        c[2] = f[complement_base(2) as usize];
        c[3] = f[complement_base(3) as usize];
        let amt = rot_for(k, R);
        let mut fr: [u32; 4] = [0u32; 4];
        fr[0] = rotl(f[0], amt);
        fr[1] = rotl(f[1], amt);
        fr[2] = rotl(f[2], amt);
        fr[3] = rotl(f[3], amt);
        let mut cr: [u32; 4] = [0u32; 4];
        cr[0] = rotl(c[0], amt);
        cr[1] = rotl(c[1], amt);
        cr[2] = rotl(c[2], amt);
        cr[3] = rotl(c[3], amt);
        let res = NtHasher { k, f, c, f_rot: fr, c_rot: cr };
        proof {
            assert forall|i: int| 0 <= i < 4 implies #[trigger] res.c@[i] == res.f@[spec_complement(
                i as u8,
            ) as int] by {
                if i == 0 {
                } else if i == 1 {
                } else if i == 2 {
                } else {
                }
            }
            assert forall|i: int| 0 <= i < 4 implies #[trigger] res.f_rot@[i] == rotl_i(
                res.f@[i],
                (res.k as int - 1) * (R as int),
            ) by {
                if i == 0 {
                } else if i == 1 {
                } else if i == 2 {
                } else {
                }
            }
            assert forall|i: int| 0 <= i < 4 implies #[trigger] res.c_rot@[i] == rotl_i(
                res.c@[i],
                (res.k as int - 1) * (R as int),
            ) by {
                if i == 0 {
                } else if i == 1 {
                } else if i == 2 {
                } else {
                }
            }
            assert forall|b: u8| b < 4 implies #[trigger] res.spec_f(b) == spec_nt_table(
                b as int,
                seed,
            ) by {
                if b == 0 {
                } else if b == 1 {
                } else if b == 2 {
                } else {
                }
            }
        }
        res
    }

    /// Build an unseeded hasher for windows of `k` symbols.
    pub fn new(k: usize) -> (res: Self)
        requires
            1 <= k,
        ensures
            res.char_wf(),
            res.char_k() == k as int,
            forall|b: u8| b < 4 ==> #[trigger] res.spec_f(b) == spec_nt_table(b as int, None),
    {
        Self::build(k, None)
    }

    /// Build a hasher whose table is remixed with `seed`, giving an
    /// independent pseudo-random family.
    pub fn new_with_seed(k: usize, seed: u32) -> (res: Self)
        requires
            1 <= k,
        ensures
            res.char_wf(),
            res.char_k() == k as int,
            forall|b: u8|
                b < 4 ==> #[trigger] res.spec_f(b) == spec_nt_table(b as int, Some(seed)),
    {
        Self::build(k, Some(seed))
    }
}

impl<const CANONICAL: bool, const R: u32> CharHasher for NtHasher<CANONICAL, R> {
    open spec fn char_wf(&self) -> bool {
        &&& 1 <= self.k
        &&& forall|i: int|
            0 <= i < 4 ==> #[trigger] self.c@[i] == self.f@[spec_complement(i as u8) as int]
        &&& forall|i: int|
            0 <= i < 4 ==> #[trigger] self.f_rot@[i] == rotl_i(
                self.f@[i],
                (self.k as int - 1) * (R as int),
            )
        &&& forall|i: int|
            0 <= i < 4 ==> #[trigger] self.c_rot@[i] == rotl_i(
                self.c@[i],
                (self.k as int - 1) * (R as int),
            )
    }

    open spec fn char_k(&self) -> int {
        self.k as int
    }

    open spec fn char_r(&self) -> u32 {
        R
    }

    open spec fn char_canonical(&self) -> bool {
        CANONICAL
    }

    open spec fn char_valid(&self, b: u8) -> bool {
        b < 4
    }

    open spec fn spec_f(&self, b: u8) -> u32 {
        self.f@[b as int]
    }

    open spec fn spec_c(&self, b: u8) -> u32 {
        self.c@[b as int]
    }

    proof fn lemma_char_facts(&self) {
        assert(forall|b: u8| b < 4 ==> (b ^ 2) < 4) by (bit_vector);
        assert forall|b: u8| self.char_valid(b) implies #[trigger] self.spec_c(b) == self.spec_f(
            spec_complement(b),
        ) by {
            assert(self.c@[b as int] == self.f@[spec_complement(b as int as u8) as int]);
        }
    }

    fn new_with_seed(k: usize, seed: Option<u32>) -> Self {
        Self::build(k, seed)
    }

    fn k(&self) -> usize {
        self.k
    }

    fn rot(&self) -> u32 {
        R
    }

    fn canonical(&self) -> bool {
        CANONICAL
    }

    fn f(&self, b: u8) -> u32 {
        self.f[b as usize]
    }

    fn c(&self, b: u8) -> u32 {
        self.c[b as usize]
    }

    fn f_rot(&self, b: u8) -> u32 {
        self.f_rot[b as usize]
    }

    fn c_rot(&self, b: u8) -> u32 {
        self.c_rot[b as usize]
    }
}

/// The multiplicative family: a symbol hashes to itself times an odd
/// mixing constant, so any symbol of up to 8 bits is accepted.
///
/// With `CANONICAL` the forward and reverse-complement hashes are summed.
/// The accumulator rotates by `R` bits per symbol.
#[derive(Clone)]
pub struct MulHasher<const CANONICAL: bool, const R: u32> {
    pub k: usize,
    pub rot: u32,
    pub mul: u32,
}

impl<const CANONICAL: bool, const R: u32> MulHasher<CANONICAL, R> {
    /// The mixing constant this hasher multiplies each symbol by.
    pub open spec fn spec_mul(&self) -> u32 {
        self.mul
    }

    /// Build a hasher for windows of `k` symbols.
    pub fn new(k: usize) -> (res: Self)
        requires
            1 <= k,
        ensures
            res.char_wf(),
            res.char_k() == k as int,
            res.spec_mul() == MUL_MIX,
    {
        MulHasher { k, rot: ((k - 1) % 32) as u32, mul: MUL_MIX }
    }

    /// Build a hasher whose mixing constant is perturbed by `seed`; the
    /// perturbation is forced even so the constant stays odd.
    pub fn new_with_seed(k: usize, seed: u32) -> (res: Self)
        requires
            1 <= k,
        ensures
            res.char_wf(),
            res.char_k() == k as int,
            res.spec_mul() == MUL_MIX ^ (((seed_mix(seed) % 0x1_0000_0000) as u32) << 1u32),
    {
        let pert = ((mix_seed(seed) % 0x1_0000_0000) as u32) << 1u32;
        MulHasher { k, rot: ((k - 1) % 32) as u32, mul: MUL_MIX ^ pert }
    }
}

impl<const CANONICAL: bool, const R: u32> CharHasher for MulHasher<CANONICAL, R> {
    open spec fn char_wf(&self) -> bool {
        &&& 1 <= self.k
        &&& self.rot == (self.k as int - 1) % 32
    }

    open spec fn char_k(&self) -> int {
        self.k as int
    }

    open spec fn char_r(&self) -> u32 {
        R
    }

    open spec fn char_canonical(&self) -> bool {
        CANONICAL
    }

    open spec fn char_valid(&self, b: u8) -> bool {
        true
    }

    open spec fn spec_f(&self, b: u8) -> u32 {
        vstd::wrapping::u32_specs::wrapping_mul(b as u32, self.mul)
    }

    open spec fn spec_c(&self, b: u8) -> u32 {
        vstd::wrapping::u32_specs::wrapping_mul(spec_complement(b) as u32, self.mul)
    }

    proof fn lemma_char_facts(&self) {
    }

    fn new_with_seed(k: usize, seed: Option<u32>) -> Self {
        match seed {
            Option::None => Self::new(k),
            Option::Some(sd) => Self::new_with_seed(k, sd),
        }
    }

    fn k(&self) -> usize {
        self.k
    }

    fn rot(&self) -> u32 {
        R
    }

    fn canonical(&self) -> bool {
        CANONICAL
    }

    fn f(&self, b: u8) -> u32 {
        (b as u32).wrapping_mul(self.mul)
    }

    fn c(&self, b: u8) -> u32 {
        (complement_base(b) as u32).wrapping_mul(self.mul)
    }

    fn f_rot(&self, b: u8) -> (res: u32) {
        let v = (b as u32).wrapping_mul(self.mul);
        proof {
            assert(self.rot as u64 * ((R % 32) as u64) <= 31 * 31) by (nonlinear_arith)
                requires
                    self.rot <= 31,
                    (R % 32) <= 31,
            ;
        }
        let amt = ((self.rot as u64 * ((R % 32) as u64)) % 32) as u32;
        proof {
            lemma_mul_mod_noop_general(self.k as int - 1, R as int, 32);
        }
        rotl(v, amt)
    }

    fn c_rot(&self, b: u8) -> (res: u32) {
        let v = (complement_base(b) as u32).wrapping_mul(self.mul);
        proof {
            assert(self.rot as u64 * ((R % 32) as u64) <= 31 * 31) by (nonlinear_arith)
                requires
                    self.rot <= 31,
                    (R % 32) <= 31,
            ;
        }
        let amt = ((self.rot as u64 * ((R % 32) as u64)) % 32) as u32;
        proof {
            lemma_mul_mod_noop_general(self.k as int - 1, R as int, 32);
        }
        rotl(v, amt)
    }
}

} // verus!
