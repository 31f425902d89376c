//! Pinned values and scenarios: the anti-lexicographic closed form, the
//! seeded table entries, ambiguity masking, and an end-to-end run.
use packed_seq::{PackedSeqVec, SeqVec};
use seq_hash::{AntiLexHasher, KmerHasher, MulHasher, NtHasher, RollingHasher};
use std::hash::{BuildHasher, BuildHasherDefault, DefaultHasher};

fn bps<'s, S: packed_seq::Seq<'s>>(s: S) -> Vec<u8> {
    packed_seq::Seq::iter_bp(s).collect()
}

/// Scalar and lane-parallel streams agree on a concrete sequence and have
/// one hash per full window.
#[test]
fn end_to_end_scenario() {
    let seq = PackedSeqVec::from_ascii(b"ACGGCAGCGCATATGTAGT");
    let syms = bps(seq.as_slice());
    let k = 3;
    let hasher = NtHasher::<true, 7>::new(k);
    let scalar = hasher.hash_kmers_scalar(&syms);
    let simd = hasher.hash_kmers_simd(&syms, 1).to_vec();
    assert_eq!(scalar, simd);
    assert_eq!(scalar.len(), syms.len() - 2);
    assert_eq!(scalar.len(), 17);
}

/// The forward anti-lexicographic hash of a 3-mer is its reverse reading,
/// two bits per symbol, with the most significant symbol inverted.
#[test]
fn anti_lex_closed_form() {
    let hasher = AntiLexHasher::<false>::new(3);
    for s0 in 0u8..4 {
        for s1 in 0u8..4 {
            for s2 in 0u8..4 {
                let w = [s0, s1, s2];
                let expected =
                    (s0 as u32) | ((s1 as u32) << 2) | (((s2 as u32) ^ 3) << 4);
                assert_eq!(hasher.hash_seq(&w), expected, "{w:?}");
                assert_eq!(hasher.hash_kmers_scalar(&w), vec![expected], "{w:?}");
            }
        }
    }
    // hash order of windows differing in the last symbol follows that
    // symbol with its bits inverted
    let h = |last: u8| hasher.hash_seq(&[1, 2, last]);
    assert!(h(3) < h(2) && h(2) < h(1) && h(1) < h(0));
}

/// A seeded table entry is the base value combined with the seed and run
/// through std's `DefaultHasher`.
#[test]
fn seeded_table_entry() {
    let hasher = NtHasher::<false, 7>::new_with_seed(1, 31415);
    let expected =
        BuildHasherDefault::<DefaultHasher>::new().hash_one(0x95c6_0474u32 ^ 31415) as u32;
    assert_eq!(hasher.hash_seq(&[0]), expected);

    let unseeded = NtHasher::<false, 7>::new(1);
    assert_eq!(unseeded.hash_seq(&[2]), 0x8257_2324);
}

/// A multiplicative hash of a single symbol is the symbol times the
/// mixing constant.
#[test]
fn mulhash_single_symbol() {
    let hasher = MulHasher::<false, 7>::new(1);
    assert_eq!(hasher.hash_seq(&[3]), 3u32.wrapping_mul(0x2722_0a95));
    assert_eq!(hasher.hash_seq(&[200]), 200u32.wrapping_mul(0x2722_0a95));
}

/// A canonical hasher gives a window and its reverse complement the same
/// hash; a forward hasher does not (for this window).
#[test]
fn canonical_single_kmer() {
    let kmer = bps(PackedSeqVec::from_ascii(b"ACG").as_slice());
    let kmer_rc = bps(PackedSeqVec::from_ascii(b"CGT").as_slice());
    let hasher = NtHasher::<true, 7>::new(3);
    assert_eq!(hasher.hash_seq(&kmer), hasher.hash_seq(&kmer_rc));
    let fwd = NtHasher::<false, 7>::new(3);
    assert_ne!(fwd.hash_seq(&kmer), fwd.hash_seq(&kmer_rc));
}

/// Every window that overlaps a flagged position hashes to the sentinel;
/// every other window keeps its unmasked hash.
#[test]
fn ambiguity_masking() {
    let seq = PackedSeqVec::from_ascii(b"ACGGCAGCGCATATGTAGT");
    let syms = bps(seq.as_slice());
    let n = syms.len();
    let k = 3;
    let mut flags = vec![false; n];
    flags[5] = true;
    flags[11] = true;
    fn check_masked<H: KmerHasher>(hasher: H, syms: &[u8], flags: &[bool], k: usize) {
        let plain = hasher.hash_kmers_scalar(&syms);
        let masked = hasher.hash_valid_kmers_scalar(&syms, &flags);
        let masked_simd = hasher.hash_valid_kmers_simd(&syms, &flags, 1).to_vec();
        assert_eq!(masked.len(), plain.len());
        assert_eq!(masked_simd, masked);
        for i in 0..masked.len() {
            let overlaps = (i..i + k).any(|j| flags[j]);
            if overlaps {
                assert_eq!(masked[i], u32::MAX, "window {i}");
            } else {
                assert_eq!(masked[i], plain[i], "window {i}");
            }
        }
    }
    check_masked(NtHasher::<true, 7>::new(k), &syms, &flags, k);
    check_masked(NtHasher::<false, 7>::new(k), &syms, &flags, k);
}

/// Prefix hashing emits one value per non-empty prefix; the last one is
/// the whole-sequence hash.
#[test]
fn prefix_hashes() {
    let syms = bps(PackedSeqVec::from_ascii(b"ACGGCAGCG").as_slice());
    let hasher = NtHasher::<true, 7>::new(4);
    let prefixes = hasher.hash_prefixes(&syms);
    assert_eq!(prefixes.len(), syms.len());
    assert_eq!(*prefixes.last().unwrap(), hasher.hash_seq(&syms));
}

/// Sequences shorter than the window produce no hashes, on every path.
#[test]
fn short_sequences() {
    let hasher = NtHasher::<true, 7>::new(5);
    for len in 0..5usize {
        let syms = vec![1u8; len];
        assert_eq!(hasher.hash_kmers_scalar(&syms), Vec::<u32>::new());
        assert_eq!(hasher.hash_kmers_simd(&syms, 1).to_vec(), Vec::<u32>::new());
    }
    assert_eq!(hasher.hash_seq(&[]), 0);
}

/// The rolling protocol exposed step by step matches the bulk form.
#[test]
fn rolling_state_steps() {
    let syms = bps(PackedSeqVec::from_ascii(b"ACGGCAGCGCATATGTAGT").as_slice());
    let k = 4;
    let hasher = MulHasher::<true, 7>::new(k);
    let bulk = hasher.hash_kmers_scalar(&syms);
    let d = hasher.delay();
    let mut st = hasher.init_state();
    let mut manual = Vec::new();
    for j in 0..syms.len() {
        let r = if j >= d { syms[j - d] } else { 0 };
        let out = hasher.in_out_step(&mut st, syms[j], r);
        if j + 1 >= k {
            manual.push(out);
        }
    }
    assert_eq!(manual, bulk);
}
