//! Anti-lexicographic hashing.
//!
//! A window's hash is the window read right to left — the last symbol most
//! significant — packed two bits per symbol into a 32-bit word, with the
//! most significant symbol's bits inverted.  When `k` exceeds 16 symbols
//! only the last 16 take part: older contributions are shifted out, so the
//! forward direction needs no removal step.  The canonical variant hashes
//! the reverse-complement strand the same way and takes the minimum of the
//! two words, an order-preserving combination.
use vstd::prelude::*;

verus! {

use crate::stream::{PaddedHashes, RollingState};
use crate::{
    KmerHasher, RollingHasher, lag_sym, lemma_revcomp_involution, spec_complement, spec_revcomp,
    sym_at,
};

/// The low `w` bits set, all of the word for `w >= 32`.
pub open spec fn ones32(w: u32) -> u32 {
    if w >= 32 {
        u32::MAX
    } else {
        ((1u32 << w) - 1) as u32
    }
}

/// The smaller of two words.
pub open spec fn umin(a: u32, b: u32) -> u32 {
    if a < b {
        a
    } else {
        b
    }
}

/// How far a new symbol is shifted up: to the top of the `min(k, 16)`
/// symbol positions.
pub open spec fn spec_shift(k: int) -> u32 {
    if 2 * k <= 32 {
        (2 * (k - 1)) as u32
    } else {
        30
    }
}

/// The mask that inverts the most significant symbol's two bits.
pub open spec fn spec_anti(k: int) -> u32 {
    3u32 << spec_shift(k)
}

/// The mask keeping only the window's `min(k, 16)` symbol positions.
pub open spec fn spec_mask(k: int) -> u32 {
    if 2 * k < 32 {
        ones32((2 * k) as u32)
    } else {
        u32::MAX
    }
}

/// The forward accumulator after feeding the symbols of `s` in order: each
/// symbol enters at bit `shift` and moves down two bits per later symbol.
pub open spec fn alex_fw(shift: u32, s: Seq<u8>) -> u32
    decreases s.len(),
{
    if s.len() == 0 {
        0
    } else {
        (alex_fw(shift, s.drop_last()) >> 2u32) ^ ((s.last() as u32) << shift)
    }
}

/// The reverse-complement accumulator after feeding the symbols of `s` in
/// order: each symbol's complement enters at the bottom and moves up two
/// bits per later symbol, truncated by `mask`.
pub open spec fn alex_rc(mask: u32, s: Seq<u8>) -> u32
    decreases s.len(),
{
    if s.len() == 0 {
        0
    } else {
        ((alex_rc(mask, s.drop_last()) << 2u32) & mask) ^ (((s.last() as u32) ^ 2))
    }
}

/// The shift the one-shot pass uses at step `i`: growing two bits per
/// symbol until the word is full.
pub open spec fn pshift(i: int) -> u32 {
    if i <= 15 {
        (2 * i) as u32
    } else {
        30
    }
}

/// The mask the one-shot pass uses at step `i`.
pub open spec fn pmask(i: int) -> u32 {
    if i <= 14 {
        ones32((2 * i + 2) as u32)
    } else {
        u32::MAX
    }
}

/// The one-shot forward accumulator over `s`: symbols enter at the growing
/// shift, and once the word is full the older content moves down instead.
pub open spec fn alex_os_fw(s: Seq<u8>) -> u32
    decreases s.len(),
{
    if s.len() == 0 {
        0
    } else {
        (if s.len() - 1 >= 16 {
            alex_os_fw(s.drop_last()) >> 2u32
        } else {
            alex_os_fw(s.drop_last())
        }) ^ ((s.last() as u32) << pshift(s.len() - 1))
    }
}

/// The one-shot reverse-complement accumulator over `s`: frozen once the
/// first 16 symbols are in.
pub open spec fn alex_os_rc(s: Seq<u8>) -> u32
    decreases s.len(),
{
    if s.len() == 0 {
        0
    } else if s.len() - 1 < 16 {
        ((alex_os_rc(s.drop_last()) << 2u32) & pmask(s.len() - 1)) ^ ((s.last() as u32) ^ 2)
    } else {
        alex_os_rc(s.drop_last())
    }
}

/// The removed-symbol stream of the windowed protocol, as a sequence.
pub open spec fn lag_pref(s: Seq<u8>, d: int, j: int) -> Seq<u8> {
    Seq::new(j as nat, |q: int| lag_sym(s, d, q))
}

/// A prepended symbol's surviving contribution to the forward accumulator
/// after `age` further symbols.
pub open spec fn acontrib(shift: u32, y: u8, age: int) -> u32 {
    if 2 * age < 32 {
        ((y as u32) << shift) >> ((2 * age) as u32)
    } else {
        0
    }
}

/// A prepended symbol's surviving contribution to the reverse-complement
/// accumulator after `age` further symbols.
pub open spec fn rcontrib(mask: u32, y: u8, age: int) -> u32 {
    if 2 * age < 32 {
        (((y as u32) ^ 2) << ((2 * age) as u32)) & mask
    } else {
        0
    }
}

proof fn bv_shift_unit(x: u32)
    by (bit_vector)
    ensures
        (x >> 0u32) == x,
        (x << 0u32) == x,
        (0u32 >> 2u32) == 0u32,
        (x ^ 0u32) == x,
        (0u32 ^ x) == x,
        ((0u32 << 2u32) & x) == 0u32,
{
}

proof fn bv_shr_xor(x: u32, y: u32)
    by (bit_vector)
    ensures
        ((x ^ y) >> 2u32) == ((x >> 2u32) ^ (y >> 2u32)),
{
}

proof fn bv_shl_mask_xor(x: u32, y: u32, m: u32)
    by (bit_vector)
    ensures
        (((x ^ y) << 2u32) & m) == (((x << 2u32) & m) ^ ((y << 2u32) & m)),
{
}

proof fn bv_shl_xor(x: u32, y: u32, d: u32)
    by (bit_vector)
    requires
        d < 32,
    ensures
        ((x ^ y) << d) == ((x << d) ^ (y << d)),
{
}

proof fn bv_xor_swap(a: u32, b: u32, c: u32)
    by (bit_vector)
    ensures
        ((a ^ b) ^ c) == ((a ^ c) ^ b),
{
}

proof fn bv_shr_step(x: u32, a: u32)
    by (bit_vector)
    requires
        a < 32,
    ensures
        ((x >> a) >> 2u32) == (if a + 2 < 32 {
            x >> ((a + 2) as u32)
        } else {
            0u32
        }),
{
}

proof fn bv_rc_step(x: u32, a: u32, m: u32, wm: u32)
    by (bit_vector)
    requires
        a < 32,
        wm <= 32,
        m == ones32(wm),
    ensures
        ((((x << a) & m) << 2u32) & m) == (if a + 2 < 32 {
            (x << ((a + 2) as u32)) & m
        } else {
            0u32
        }),
{
}

proof fn bv_fw_contrib_dead(y: u8, sh: u32, a: u32)
    by (bit_vector)
    requires
        y < 4,
        sh <= 30,
        a < 32,
        a >= sh + 2,
    ensures
        (((y as u32) << sh) >> a) == 0u32,
{
}

proof fn bv_rc_contrib_dead(y2: u32, a: u32, m: u32, wm: u32)
    by (bit_vector)
    requires
        a < 32,
        wm <= a,
        wm <= 32,
        m == ones32(wm),
    ensures
        (((y2) << a) & m) == 0u32,
{
}

proof fn bv_shl_shl(x: u32, a: u32, b: u32)
    by (bit_vector)
    requires
        a + b <= 31,
    ensures
        ((x << a) << b) == (x << ((a + b) as u32)),
{
}

proof fn bv_shl_shr_small(y2: u32, sh: u32, a: u32)
    by (bit_vector)
    requires
        y2 < 4,
        a <= sh,
        sh <= 30,
    ensures
        ((y2 << sh) >> a) == (y2 << ((sh - a) as u32)),
{
}

proof fn bv_shl_down(x: u32, d: u32, c: u32)
    by (bit_vector)
    requires
        2 <= d,
        d <= 30,
        c < 32,
        c + d <= 32,
        x < (1u32 << c),
    ensures
        ((x << d) >> 2u32) == (x << ((d - 2) as u32)),
{
}

proof fn bv_mask_noop(x: u32, m: u32, wm: u32, c: u32)
    by (bit_vector)
    requires
        c < 32,
        c <= wm,
        wm <= 32,
        m == ones32(wm),
        x < (1u32 << c),
    ensures
        (x & m) == x,
{
}

/// Prepending a symbol adds its (aged) contribution to the forward
/// accumulator.
proof fn lemma_fw_prepend(shift: u32, s: Seq<u8>, y: u8)
    requires
        shift <= 30,
    ensures
        alex_fw(shift, seq![y] + s) == alex_fw(shift, s) ^ acontrib(shift, y, s.len() as int),
    decreases s.len(),
{
    let u = seq![y] + s;
    if s.len() == 0 {
        assert(u.drop_last() =~= Seq::<u8>::empty());
        assert(u.last() == y);
        assert(alex_fw(shift, Seq::<u8>::empty()) == 0);
        bv_shift_unit((y as u32) << shift);
    } else {
        let dl = s.drop_last();
        assert(u.drop_last() =~= seq![y] + dl);
        assert(u.last() == s.last());
        lemma_fw_prepend(shift, dl, y);
        bv_shr_xor(alex_fw(shift, dl), acontrib(shift, y, dl.len() as int));
        let a2 = 2 * (dl.len() as int);
        if a2 < 32 {
            bv_shr_step((y as u32) << shift, a2 as u32);
        } else {
            bv_shift_unit(0);
            assert((0u32 >> 2u32) == 0u32);
        }
        assert((acontrib(shift, y, dl.len() as int) >> 2u32) == acontrib(
            shift,
            y,
            s.len() as int,
        ));
        bv_xor_swap(
            alex_fw(shift, dl) >> 2u32,
            acontrib(shift, y, s.len() as int),
            (s.last() as u32) << shift,
        );
    }
}

/// Prepending a symbol adds its (aged, masked) contribution to the
/// reverse-complement accumulator.
proof fn lemma_rc_prepend(mask: u32, wm: u32, s: Seq<u8>, y: u8)
    requires
        2 <= wm,
        wm <= 32,
        mask == ones32(wm),
        y < 4,
    ensures
        alex_rc(mask, seq![y] + s) == alex_rc(mask, s) ^ rcontrib(mask, y, s.len() as int),
    decreases s.len(),
{
    let u = seq![y] + s;
    let y2 = (y as u32) ^ 2;
    if s.len() == 0 {
        assert(u.drop_last() =~= Seq::<u8>::empty());
        assert(u.last() == y);
        assert(alex_rc(mask, Seq::<u8>::empty()) == 0);
        bv_shift_unit(y2);
        bv_shift_unit(mask);
        assert(y2 < (1u32 << 2u32)) by (bit_vector)
            requires
                y2 == (y as u32) ^ 2,
                y < 4,
        ;
        bv_mask_noop(y2, mask, wm, 2);
    } else {
        let dl = s.drop_last();
        assert(u.drop_last() =~= seq![y] + dl);
        assert(u.last() == s.last());
        lemma_rc_prepend(mask, wm, dl, y);
        bv_shl_mask_xor(alex_rc(mask, dl), rcontrib(mask, y, dl.len() as int), mask);
        let a2 = 2 * (dl.len() as int);
        if a2 < 32 {
            bv_rc_step(y2, a2 as u32, mask, wm);
        } else {
            bv_shift_unit(mask);
        }
        assert(((rcontrib(mask, y, dl.len() as int) << 2u32) & mask) == rcontrib(
            mask,
            y,
            s.len() as int,
        ));
        bv_xor_swap(
            (alex_rc(mask, dl) << 2u32) & mask,
            rcontrib(mask, y, s.len() as int),
            (s.last() as u32) ^ 2,
        );
    }
}


/// Once a symbol has aged past the window it no longer affects the
/// forward accumulator: only the last `m` symbols matter.
proof fn lemma_fw_tail(shift: u32, s: Seq<u8>, m: int)
    requires
        shift <= 30,
        1 <= m,
        m <= s.len(),
        2 * m >= shift + 2,
        forall|q: int| 0 <= q < s.len() ==> s[q] < 4,
    ensures
        alex_fw(shift, s) == alex_fw(shift, s.skip(s.len() - m)),
    decreases s.len(),
{
    if s.len() == m {
        assert(s.skip(0) =~= s);
    } else {
        let tl = s.drop_first();
        assert(s =~= seq![s[0]] + tl);
        lemma_fw_prepend(shift, tl, s[0]);
        let age = tl.len() as int;
        if 2 * age < 32 {
            bv_fw_contrib_dead(s[0], shift, (2 * age) as u32);
        }
        assert(acontrib(shift, s[0], age) == 0);
        bv_shift_unit(alex_fw(shift, tl));
        assert(forall|q: int| 0 <= q < tl.len() ==> #[trigger] tl[q] < 4);
        lemma_fw_tail(shift, tl, m);
        assert(tl.skip(tl.len() - m) =~= s.skip(s.len() - m));
    }
}

/// Once a symbol has aged past the mask it no longer affects the
/// reverse-complement accumulator.
proof fn lemma_rc_tail(mask: u32, wm: u32, s: Seq<u8>, m: int)
    requires
        2 <= wm,
        wm <= 32,
        mask == ones32(wm),
        1 <= m,
        m <= s.len(),
        2 * m >= wm,
        forall|q: int| 0 <= q < s.len() ==> s[q] < 4,
    ensures
        alex_rc(mask, s) == alex_rc(mask, s.skip(s.len() - m)),
    decreases s.len(),
{
    if s.len() == m {
        assert(s.skip(0) =~= s);
    } else {
        let tl = s.drop_first();
        assert(s =~= seq![s[0]] + tl);
        lemma_rc_prepend(mask, wm, tl, s[0]);
        let age = tl.len() as int;
        if 2 * age < 32 {
            bv_rc_contrib_dead((s[0] as u32) ^ 2, (2 * age) as u32, mask, wm);
        }
        assert(rcontrib(mask, s[0], age) == 0);
        bv_shift_unit(alex_rc(mask, tl));
        assert(forall|q: int| 0 <= q < tl.len() ==> #[trigger] tl[q] < 4);
        lemma_rc_tail(mask, wm, tl, m);
        assert(tl.skip(tl.len() - m) =~= s.skip(s.len() - m));
    }
}

/// The reverse-complement accumulator over at most 15 symbols fits in the
/// bits those symbols occupy.
proof fn lemma_rc_bound(mask: u32, s: Seq<u8>)
    requires
        s.len() <= 15,
        forall|q: int| 0 <= q < s.len() ==> s[q] < 4,
    ensures
        alex_rc(mask, s) < (1u32 << ((2 * s.len()) as u32)),
    decreases s.len(),
{
    if s.len() == 0 {
        assert(0u32 < (1u32 << 0u32)) by (bit_vector);
    } else {
        let dl = s.drop_last();
        assert(forall|q: int| 0 <= q < dl.len() ==> #[trigger] dl[q] < 4);
        lemma_rc_bound(mask, dl);
        let x = alex_rc(mask, dl);
        let c = (2 * dl.len()) as u32;
        let y = s.last();
        assert((((x << 2u32) & mask) ^ ((y as u32) ^ 2)) < (1u32 << ((c + 2) as u32)))
            by (bit_vector)
            requires
                x < (1u32 << c),
                c <= 28,
                y < 4,
        ;
    }
}

/// The one-shot forward accumulator over at most 15 symbols fits in the
/// bits those symbols occupy.
proof fn lemma_os_fw_bound(s: Seq<u8>)
    requires
        s.len() <= 15,
        forall|q: int| 0 <= q < s.len() ==> s[q] < 4,
    ensures
        alex_os_fw(s) < (1u32 << ((2 * s.len()) as u32)),
    decreases s.len(),
{
    if s.len() == 0 {
        assert(0u32 < (1u32 << 0u32)) by (bit_vector);
    } else {
        let dl = s.drop_last();
        assert(forall|q: int| 0 <= q < dl.len() ==> #[trigger] dl[q] < 4);
        lemma_os_fw_bound(dl);
        let x = alex_os_fw(dl);
        let c = (2 * dl.len()) as u32;
        let y = s.last();
        assert((x ^ ((y as u32) << c)) < (1u32 << ((c + 2) as u32)))
            by (bit_vector)
            requires
                x < (1u32 << c),
                c <= 28,
                y < 4,
        ;
        assert(pshift(s.len() - 1) == c);
    }
}

/// The reverse-complement accumulator of `v` is the forward accumulator of
/// the reverse complement of `v`, still short of its final upward shift.
proof fn lemma_rc_rev(shift: u32, mask: u32, wm: u32, v: Seq<u8>)
    requires
        1 <= v.len(),
        2 * (v.len() - 1) <= shift,
        shift <= 30,
        2 <= wm,
        wm <= 32,
        mask == ones32(wm),
        2 * v.len() <= wm,
        forall|q: int| 0 <= q < v.len() ==> v[q] < 4,
    ensures
        alex_fw(shift, spec_revcomp(v)) == (alex_rc(mask, v) << ((shift - 2 * (v.len() - 1))
            as u32)),
    decreases v.len(),
{
    let latest = v.last();
    assert(latest < 4);
    let y2 = (latest as u32) ^ 2;
    assert((spec_complement(latest) as u32) == y2 && y2 < 4) by (bit_vector)
        requires
            latest < 4,
            y2 == (latest as u32) ^ 2,
    ;
    if v.len() == 1 {
        let rv = spec_revcomp(v);
        assert(rv =~= seq![spec_complement(v[0])]);
        assert(rv.drop_last() =~= Seq::<u8>::empty());
        assert(rv.last() == spec_complement(latest));
        assert(v.drop_last() =~= Seq::<u8>::empty());
        assert(alex_fw(shift, Seq::<u8>::empty()) == 0);
        assert(alex_rc(mask, Seq::<u8>::empty()) == 0);
        bv_shift_unit(mask);
        bv_shift_unit(y2);
        bv_shift_unit((y2) << shift);
        assert(alex_fw(shift, rv) == (0u32 >> 2u32) ^ (y2 << shift));
        assert(alex_rc(mask, v) == ((0u32 << 2u32) & mask) ^ y2);
        bv_shift_unit(0u32 ^ (y2 << shift));
    } else {
        let ln = v.len() as int;
        let vp = v.drop_last();
        assert(forall|q: int| 0 <= q < vp.len() ==> #[trigger] vp[q] < 4);
        assert(spec_revcomp(v) =~= seq![spec_complement(latest)] + spec_revcomp(vp)) by {
            let v1 = spec_revcomp(v);
            let v2 = seq![spec_complement(latest)] + spec_revcomp(vp);
            assert forall|q: int| 0 <= q < v1.len() implies v1[q] == v2[q] by {
                if q == 0 {
                } else {
                    assert(v2[q] == spec_revcomp(vp)[q - 1]);
                    assert(spec_revcomp(vp)[q - 1] == spec_complement(vp[vp.len() - q]));
                    assert(vp[vp.len() - q] == v[v.len() - 1 - q]);
                }
            }
        }
        lemma_fw_prepend(shift, spec_revcomp(vp), spec_complement(latest));
        lemma_rc_rev(shift, mask, wm, vp);
        lemma_rc_bound(mask, vp);
        let rp = alex_rc(mask, vp);
        let cp = (2 * vp.len()) as u32;
        let diff_p = (shift - 2 * (ln - 2)) as u32;
        let diff = (shift - 2 * (ln - 1)) as u32;
        // the prepended complement's contribution equals its final place
        assert(acontrib(shift, spec_complement(latest), ln - 1) == (y2 << shift) >> ((2 * (ln
            - 1)) as u32));
        bv_shl_shr_small(y2, shift, (2 * (ln - 1)) as u32);
        // the masked upward shift loses nothing
        assert(((rp << 2u32) & mask) == (rp << 2u32)) by {
            if wm == 32 {
                assert(((rp << 2u32) & mask) == (rp << 2u32)) by (bit_vector)
                    requires
                        mask == ones32(32),
                ;
            } else {
                assert((rp << 2u32) < (1u32 << ((cp + 2) as u32))) by (bit_vector)
                    requires
                        rp < (1u32 << cp),
                        cp <= 28,
                ;
                bv_mask_noop(rp << 2u32, mask, wm, (cp + 2) as u32);
            }
        }
        bv_shl_xor(rp << 2u32, y2, diff);
        bv_shl_shl(rp, 2, diff);
        assert(alex_rc(mask, v) == (rp << 2u32) ^ y2);
        assert((alex_rc(mask, v) << diff) == ((rp << ((2 + diff) as u32))) ^ (y2 << diff));
        assert(2 + diff == diff_p);
    }
}

/// Over a full run the one-shot forward accumulator equals the windowed
/// one, still short of its final upward shift.
proof fn lemma_os_fw_eq(k: int, s: Seq<u8>)
    requires
        1 <= s.len(),
        s.len() <= k,
        forall|q: int| 0 <= q < s.len() ==> s[q] < 4,
    ensures
        alex_fw(spec_shift(k), s) == (alex_os_fw(s) << ((spec_shift(k) - pshift(s.len() - 1))
            as u32)),
    decreases s.len(),
{
    let sh = spec_shift(k);
    let ln = s.len() as int;
    if ln == 1 {
        assert(s.drop_last() =~= Seq::<u8>::empty());
        assert(alex_fw(sh, Seq::<u8>::empty()) == 0);
        assert(alex_os_fw(Seq::<u8>::empty()) == 0);
        let x = s.last() as u32;
        bv_shift_unit(x);
        bv_shift_unit(x << sh);
        assert(alex_fw(sh, s) == (0u32 >> 2u32) ^ (x << sh));
        assert(alex_os_fw(s) == 0u32 ^ (x << 0u32));
        assert(alex_os_fw(s) == x);
    } else {
        let dl = s.drop_last();
        assert(forall|q: int| 0 <= q < dl.len() ==> #[trigger] dl[q] < 4);
        lemma_os_fw_eq(k, dl);
        let x = s.last() as u32;
        if ln - 1 <= 15 {
            lemma_os_fw_bound(dl);
            let c = (2 * (ln - 1)) as u32;
            let d = (sh - 2 * (ln - 2)) as u32;
            let diff = (sh - 2 * (ln - 1)) as u32;
            bv_shl_down(alex_os_fw(dl), d, c);
            bv_shl_xor(alex_os_fw(dl), x << ((2 * (ln - 1)) as u32), diff);
            bv_shl_shl(x, (2 * (ln - 1)) as u32, diff);
            assert(alex_os_fw(s) == alex_os_fw(dl) ^ (x << ((2 * (ln - 1)) as u32)));
            assert(alex_fw(sh, s) == (alex_fw(sh, dl) >> 2u32) ^ (x << sh));
            assert((alex_fw(sh, dl) >> 2u32) == ((alex_os_fw(dl) << d) >> 2u32));
            assert(d - 2 == diff);
        } else {
            // the word is full: both recursions shift down and add at the top
            assert(pshift(ln - 2) == 30 && pshift(ln - 1) == 30 && sh == 30);
            bv_shift_unit(alex_os_fw(dl));
            assert(alex_fw(sh, dl) == alex_os_fw(dl));
            bv_shift_unit(alex_os_fw(s));
        }
    }
}

/// The one-shot reverse-complement accumulator is frozen after the first
/// 16 symbols.
proof fn lemma_os_rc_freeze(s: Seq<u8>)
    requires
        s.len() >= 16,
    ensures
        alex_os_rc(s) == alex_os_rc(s.take(16)),
    decreases s.len(),
{
    if s.len() == 16 {
        assert(s.take(16) =~= s);
    } else {
        let dl = s.drop_last();
        lemma_os_rc_freeze(dl);
        assert(dl.take(16) =~= s.take(16));
    }
}

/// While the word is filling, the one-shot reverse-complement accumulator
/// agrees with the windowed one: the growing and the fixed mask both keep
/// everything.
proof fn lemma_os_rc_eq(k: int, v: Seq<u8>)
    requires
        v.len() <= 16,
        v.len() <= k,
        1 <= k,
        forall|q: int| 0 <= q < v.len() ==> v[q] < 4,
    ensures
        alex_os_rc(v) == alex_rc(spec_mask(k), v),
    decreases v.len(),
{
    let mask = spec_mask(k);
    if v.len() == 0 {
    } else {
        let ln = v.len() as int;
        let dl = v.drop_last();
        assert(forall|q: int| 0 <= q < dl.len() ==> #[trigger] dl[q] < 4);
        lemma_os_rc_eq(k, dl);
        let x = alex_rc(mask, dl);
        if ln <= 15 {
            lemma_rc_bound(mask, dl);
            let c = (2 * (ln - 1)) as u32;
            assert(((x << 2u32) & pmask(ln - 1)) == ((x << 2u32) & mask)) by {
                assert((x << 2u32) < (1u32 << ((c + 2) as u32))) by (bit_vector)
                    requires
                        x < (1u32 << c),
                        c <= 28,
                ;
                bv_mask_noop(x << 2u32, pmask(ln - 1), (2 * ln) as u32, (2 * ln) as u32);
                if 2 * k < 32 {
                    bv_mask_noop(x << 2u32, mask, (2 * k) as u32, (2 * ln) as u32);
                } else {
                    assert(((x << 2u32) & mask) == (x << 2u32)) by (bit_vector)
                        requires
                            mask == ones32(32),
                    ;
                }
            }
        } else {
            // sixteen symbols: both masks are the whole word
            assert(pmask(ln - 1) == u32::MAX);
            assert(mask == u32::MAX);
            assert(((x << 2u32) & pmask(ln - 1)) == ((x << 2u32) & mask));
        }
    }
}


/// The width of the window mask in bits.
pub open spec fn spec_wm(k: int) -> u32 {
    if 2 * k < 32 {
        (2 * k) as u32
    } else {
        32
    }
}

/// How many of the window's symbols fit in the word.
pub open spec fn spec_m(k: int) -> int {
    if k <= 16 {
        k
    } else {
        16
    }
}

/// The anti-lexicographic hasher: a window hashes to its reverse reading,
/// two bits per symbol, with the most significant symbol inverted.  Only
/// 2-bit alphabets are supported.
///
/// The canonical variant hashes the reverse-complement strand the same
/// way and returns the minimum of the two words.
pub struct AntiLexHasher<const CANONICAL: bool> {
    pub k: usize,
    pub b: usize,
    pub shift: u32,
    pub anti: u32,
    pub mask: u32,
}

impl<const CANONICAL: bool> AntiLexHasher<CANONICAL> {
    /// Build a hasher for windows of `k` symbols.
    pub fn new(k: usize) -> (res: Self)
        requires
            1 <= k,
        ensures
            res.wf(),
            res.spec_k() == k as int,
    {
        let shift: u32 = if k <= 16 {
            (2 * (k - 1)) as u32
        } else {
            30
        };
        let anti: u32 = 3u32 << shift;
        let mask: u32 = if k <= 15 {
            proof {
                assert(1u32 << ((2 * k) as u32) >= 1) by (bit_vector)
                    requires
                        k <= 15,
                ;
            }
            (1u32 << ((2 * k) as u32)) - 1
        } else {
            u32::MAX
        };
        AntiLexHasher { k, b: 2, shift, anti, mask }
    }
}

impl<const CANONICAL: bool> RollingHasher for AntiLexHasher<CANONICAL> {
    open spec fn wf(&self) -> bool {
        &&& self.b == 2
        &&& 1 <= self.k
        &&& self.shift == spec_shift(self.k as int)
        &&& self.shift <= 30
        &&& self.anti == spec_anti(self.k as int)
        &&& self.mask == spec_mask(self.k as int)
    }

    open spec fn spec_k(&self) -> int {
        self.k as int
    }

    open spec fn spec_canonical(&self) -> bool {
        CANONICAL
    }

    open spec fn spec_delay(&self) -> int {
        if CANONICAL {
            self.k as int - spec_m(self.k as int)
        } else {
            self.k as int - 1
        }
    }

    open spec fn valid_sym(&self, b: u8) -> bool {
        b < 4
    }

    open spec fn spec_init(&self) -> RollingState {
        RollingState { fw: 0, rc: 0 }
    }

    open spec fn spec_step(&self, st: RollingState, a: u8, r: u8) -> RollingState {
        RollingState {
            fw: (st.fw >> 2u32) ^ ((a as u32) << self.shift),
            rc: if CANONICAL {
                ((st.rc << 2u32) & self.mask) ^ ((r as u32) ^ 2)
            } else {
                st.rc
            },
        }
    }

    open spec fn spec_out(&self, st: RollingState, a: u8, r: u8) -> u32 {
        let fw2 = (st.fw >> 2u32) ^ ((a as u32) << self.shift);
        if CANONICAL {
            let rc2 = ((st.rc << 2u32) & self.mask) ^ ((r as u32) ^ 2);
            umin(fw2 ^ self.anti, rc2 ^ self.anti)
        } else {
            fw2 ^ self.anti
        }
    }

    open spec fn spec_prefix_step(&self, st: RollingState, a: u8, i: int, n: int) -> RollingState {
        if CANONICAL {
            RollingState {
                fw: (if i >= 16 {
                    st.fw >> 2u32
                } else {
                    st.fw
                }) ^ ((a as u32) << pshift(i)),
                rc: if i < 16 {
                    ((st.rc << 2u32) & pmask(i)) ^ ((a as u32) ^ 2)
                } else {
                    st.rc
                },
            }
        } else {
            RollingState { fw: (st.fw >> 2u32) ^ ((a as u32) << spec_shift(n)), rc: st.rc }
        }
    }

    open spec fn spec_prefix_out(&self, st: RollingState, a: u8, i: int, n: int) -> u32 {
        if CANONICAL {
            let fw2 = (if i >= 16 {
                st.fw >> 2u32
            } else {
                st.fw
            }) ^ ((a as u32) << pshift(i));
            let rc2 = if i < 16 {
                ((st.rc << 2u32) & pmask(i)) ^ ((a as u32) ^ 2)
            } else {
                st.rc
            };
            umin(fw2 ^ (3u32 << pshift(i)), rc2 ^ (3u32 << pshift(i)))
        } else {
            ((st.fw >> 2u32) ^ ((a as u32) << spec_shift(n))) ^ spec_anti(n)
        }
    }

    open spec fn spec_kmer_hash(&self, w: Seq<u8>) -> u32 {
        if CANONICAL {
            umin(
                alex_fw(self.shift, w) ^ self.anti,
                alex_fw(self.shift, spec_revcomp(w)) ^ self.anti,
            )
        } else {
            alex_fw(self.shift, w) ^ self.anti
        }
    }

    open spec fn spec_prefix_hash(&self, s: Seq<u8>, i: int) -> u32 {
        if CANONICAL {
            umin(
                alex_os_fw(s.take(i + 1)) ^ (3u32 << pshift(i)),
                alex_os_rc(s.take(i + 1)) ^ (3u32 << pshift(i)),
            )
        } else {
            alex_fw(spec_shift(s.len() as int), s.take(i + 1)) ^ spec_anti(s.len() as int)
        }
    }

    open spec fn spec_stream_inv(&self, s: Seq<u8>, j: int, st: RollingState) -> bool {
        &&& st.fw == alex_fw(self.shift, s.take(j))
        &&& (CANONICAL ==> st.rc == alex_rc(self.mask, lag_pref(s, self.spec_delay(), j)))
    }

    open spec fn spec_prefix_inv(&self, s: Seq<u8>, i: int, st: RollingState) -> bool {
        if CANONICAL {
            st.fw == alex_os_fw(s.take(i)) && st.rc == alex_os_rc(s.take(i))
        } else {
            st.fw == alex_fw(spec_shift(s.len() as int), s.take(i))
        }
    }

    proof fn lemma_wf_facts(&self) {
    }

    proof fn lemma_stream_init(&self, s: Seq<u8>) {
        assert(s.take(0) =~= Seq::<u8>::empty());
        assert(lag_pref(s, self.spec_delay(), 0) =~= Seq::<u8>::empty());
    }

    proof fn lemma_stream_step(&self, s: Seq<u8>, j: int, st: RollingState) {
        let k = self.k as int;
        let d = self.spec_delay();
        assert(s.take(j + 1).drop_last() =~= s.take(j));
        assert(s.take(j + 1).last() == s[j]);
        if CANONICAL {
            assert(lag_pref(s, d, j + 1).drop_last() =~= lag_pref(s, d, j));
            assert(lag_pref(s, d, j + 1).last() == lag_sym(s, d, j));
        }
        if j >= k - 1 {
            let w = s.subrange(j - k + 1, j + 1);
            let p = s.take(j + 1);
            assert(forall|q: int| 0 <= q < w.len() ==> #[trigger] w[q] < 4);
            assert(forall|q: int| 0 <= q < p.len() ==> #[trigger] p[q] < 4);
            assert(2 * k >= self.shift + 2);
            lemma_fw_tail(self.shift, p, k);
            assert(p.skip(p.len() - k) =~= w);
            if CANONICAL {
                let m = spec_m(k);
                let wm = spec_wm(k);
                let lp = lag_pref(s, d, j + 1);
                assert forall|q: int| 0 <= q < lp.len() implies #[trigger] lp[q] < 4 by {
                    assert(lp[q] == lag_sym(s, d, q));
                }
                assert(2 * m >= wm && 2 * m <= wm);
                lemma_rc_tail(self.mask, wm, lp, m);
                let wt = w.take(m);
                assert(lp.skip(lp.len() - m) =~= wt) by {
                    let v1 = lp.skip(lp.len() - m);
                    assert forall|q: int| 0 <= q < m implies v1[q] == wt[q] by {
                        assert(v1[q] == lp[j + 1 - m + q]);
                        assert(lp[j + 1 - m + q] == lag_sym(s, d, j + 1 - m + q));
                        assert(j + 1 - m + q >= d);
                        assert(lag_sym(s, d, j + 1 - m + q) == sym_at(s, j + 1 - k + q));
                        assert(wt[q] == s[j + 1 - k + q]);
                    }
                }
                assert(forall|q: int| 0 <= q < wt.len() ==> #[trigger] wt[q] < 4);
                assert(2 * (m - 1) <= self.shift && 2 * m <= wm);
                lemma_rc_rev(self.shift, self.mask, wm, wt);
                assert(self.shift - 2 * (m - 1) == 0);
                bv_shift_unit(alex_rc(self.mask, wt));
                let rw = spec_revcomp(w);
                assert forall|q: int| 0 <= q < rw.len() implies #[trigger] rw[q] < 4 by {
                    assert(rw[q] == spec_complement(w[w.len() - 1 - q]));
                    crate::bits::lemma_complement_sym(w[w.len() - 1 - q]);
                }
                lemma_fw_tail(self.shift, rw, m);
                assert(rw.skip(rw.len() - m) =~= spec_revcomp(wt)) by {
                    let v1 = rw.skip(rw.len() - m);
                    let v2 = spec_revcomp(wt);
                    assert forall|q: int| 0 <= q < m implies v1[q] == v2[q] by {
                        assert(v1[q] == rw[k - m + q]);
                        assert(rw[k - m + q] == spec_complement(w[m - 1 - q]));
                        assert(v2[q] == spec_complement(wt[m - 1 - q]));
                        assert(wt[m - 1 - q] == w[m - 1 - q]);
                    }
                }
            }
        }
    }

    proof fn lemma_prefix_init(&self, s: Seq<u8>) {
        assert(s.take(0) =~= Seq::<u8>::empty());
    }

    proof fn lemma_prefix_step(&self, s: Seq<u8>, i: int, st: RollingState) {
        assert(s.take(i + 1).drop_last() =~= s.take(i));
        assert(s.take(i + 1).last() == s[i]);
    }

    proof fn lemma_prefix_matches_kmer(&self, w: Seq<u8>) {
        let k = self.k as int;
        assert(w.take(k) =~= w);
        assert(pshift(k - 1) == self.shift);
        if CANONICAL {
            lemma_os_fw_eq(k, w);
            assert(self.shift - pshift(k - 1) == 0);
            bv_shift_unit(alex_os_fw(w));
            let m = spec_m(k);
            let wm = spec_wm(k);
            let wt = w.take(m);
            assert(forall|q: int| 0 <= q < wt.len() ==> #[trigger] wt[q] < 4);
            if k > 16 {
                lemma_os_rc_freeze(w);
                assert(w.take(16) == wt);
            } else {
                assert(wt =~= w);
            }
            lemma_os_rc_eq(k, wt);
            assert(2 * (m - 1) <= self.shift && 2 * m <= wm);
            lemma_rc_rev(self.shift, self.mask, wm, wt);
            assert(self.shift - 2 * (m - 1) == 0);
            bv_shift_unit(alex_rc(self.mask, wt));
            let rw = spec_revcomp(w);
            assert forall|q: int| 0 <= q < rw.len() implies #[trigger] rw[q] < 4 by {
                assert(rw[q] == spec_complement(w[w.len() - 1 - q]));
                crate::bits::lemma_complement_sym(w[w.len() - 1 - q]);
            }
            assert(2 * m >= self.shift + 2);
            lemma_fw_tail(self.shift, rw, m);
            assert(rw.skip(rw.len() - m) =~= spec_revcomp(wt)) by {
                let v1 = rw.skip(rw.len() - m);
                let v2 = spec_revcomp(wt);
                assert forall|q: int| 0 <= q < m implies v1[q] == v2[q] by {
                    assert(v1[q] == rw[k - m + q]);
                    assert(rw[k - m + q] == spec_complement(w[m - 1 - q]));
                    assert(v2[q] == spec_complement(wt[m - 1 - q]));
                    assert(wt[m - 1 - q] == w[m - 1 - q]);
                }
            }
        }
    }

    proof fn lemma_canonical_revcomp(&self, w: Seq<u8>) {
        lemma_revcomp_involution(w);
    }

    fn k(&self) -> usize {
        self.k
    }

    fn is_canonical(&self) -> bool {
        CANONICAL
    }

    fn delay(&self) -> usize {
        if CANONICAL {
            if self.k > 16 {
                self.k - 16
            } else {
                0
            }
        } else {
            self.k - 1
        }
    }

    fn init_state(&self) -> RollingState {
        RollingState { fw: 0, rc: 0 }
    }

    fn in_out_step(&self, st: &mut RollingState, a: u8, r: u8) -> (out: u32) {
        let fw2 = (st.fw >> 2) ^ ((a as u32) << self.shift);
        if CANONICAL {
            let rc2 = ((st.rc << 2) & self.mask) ^ ((r as u32) ^ 2);
            st.fw = fw2;
            st.rc = rc2;
            let x = fw2 ^ self.anti;
            let y = rc2 ^ self.anti;
            if x < y {
                x
            } else {
                y
            }
        } else {
            st.fw = fw2;
            fw2 ^ self.anti
        }
    }

    fn prefix_step(&self, st: &mut RollingState, a: u8, i: usize, n: usize) -> (out: u32) {
        if CANONICAL {
            let sh: u32 = if i <= 15 {
                (2 * i) as u32
            } else {
                30
            };
            let anti: u32 = 3u32 << sh;
            let fw2 = (if i >= 16 {
                st.fw >> 2
            } else {
                st.fw
            }) ^ ((a as u32) << sh);
            let rc2 = if i < 16 {
                let mask: u32 = if i <= 14 {
                    proof {
                        assert(1u32 << ((2 * i + 2) as u32) >= 1) by (bit_vector)
                            requires
                                i <= 14,
                        ;
                    }
                    (1u32 << ((2 * i + 2) as u32)) - 1
                } else {
                    u32::MAX
                };
                ((st.rc << 2) & mask) ^ ((a as u32) ^ 2)
            } else {
                st.rc
            };
            st.fw = fw2;
            st.rc = rc2;
            let x = fw2 ^ anti;
            let y = rc2 ^ anti;
            if x < y {
                x
            } else {
                y
            }
        } else {
            let sh: u32 = if n <= 16 {
                (2 * (n - 1)) as u32
            } else {
                30
            };
            let anti: u32 = 3u32 << sh;
            let fw2 = (st.fw >> 2) ^ ((a as u32) << sh);
            st.fw = fw2;
            fw2 ^ anti
        }
    }
}

impl<const CANONICAL: bool> KmerHasher for AntiLexHasher<CANONICAL> {
    fn hash_seq(&self, seq: &[u8]) -> u32 {
        crate::stream::run_seq_hash(self, seq)
    }

    fn hash_prefixes(&self, seq: &[u8]) -> Vec<u32> {
        crate::stream::run_prefixes(self, seq)
    }

    fn hash_kmers_scalar(&self, seq: &[u8]) -> Vec<u32> {
        crate::stream::run_scalar(self, seq)
    }

    fn hash_kmers_simd(&self, seq: &[u8], context: usize) -> PaddedHashes {
        crate::stream::run_simd(self, seq, context)
    }

    fn hash_valid_kmers_scalar(&self, seq: &[u8], ambiguous: &[bool]) -> Vec<u32> {
        crate::stream::run_valid_scalar(self, seq, ambiguous)
    }

    fn hash_valid_kmers_simd(&self, seq: &[u8], ambiguous: &[bool], context: usize) -> PaddedHashes {
        crate::stream::run_valid_simd(self, seq, ambiguous, context)
    }
}
} // verus!
