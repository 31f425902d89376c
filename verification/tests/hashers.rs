//! Each hash family is checked on random DNA: naive per-window hashing,
//! scalar streaming, and lane-parallel streaming must agree, over both the
//! ASCII-coded and the packed representation of the same sequence.
use packed_seq::{AsciiSeqVec, PackedSeqVec, SeqVec};
use rand::RngExt;
use seq_hash::{AntiLexHasher, KmerHasher, MulHasher, NtHasher};
use std::sync::LazyLock;

static ASCII_SEQ: LazyLock<AsciiSeqVec> = LazyLock::new(|| AsciiSeqVec::random(1024 * 8));
static PACKED_SEQ: LazyLock<PackedSeqVec> =
    LazyLock::new(|| PackedSeqVec::from_ascii(&ASCII_SEQ.seq));

fn bps<'s, S: packed_seq::Seq<'s>>(s: S) -> Vec<u8> {
    packed_seq::Seq::iter_bp(s).collect()
}

fn test_on_inputs(f: impl Fn(usize, Vec<u8>, Vec<u8>)) {
    let ascii_seq = &*ASCII_SEQ;
    let packed_seq = &*PACKED_SEQ;
    let mut rng = rand::rng();
    let mut ks = vec![1, 2, 3, 4, 5, 31, 32, 33, 63, 64, 65];
    let mut lens: Vec<usize> = (0..100).collect();
    for _ in 0..10 {
        ks.push(rng.random_range(6..100));
    }
    for _ in 0..10 {
        lens.push(rng.random_range(100..1024 * 8));
    }
    for &k in &ks {
        for &len in &lens {
            let offset = rng.random_range(0..=3.min(len));
            let a = bps(ascii_seq.slice(offset..len));
            let p = bps(packed_seq.slice(offset..len));
            f(k, a, p);
        }
    }
}

fn test_hash<H: KmerHasher>(hasher: impl Fn(usize) -> H) {
    test_on_inputs(|k, a, p| {
        let h = hasher(k);
        let len = a.len();
        let naive: Vec<u32> = if len >= k {
            (0..=len - k).map(|i| h.hash_seq(&a[i..i + k])).collect()
        } else {
            Vec::new()
        };
        let scalar_ascii = h.hash_kmers_scalar(&a);
        let scalar_packed = h.hash_kmers_scalar(&p);
        let simd_ascii = h.hash_kmers_simd(&a, 1).to_vec();
        let simd_packed = h.hash_kmers_simd(&p, 1).to_vec();
        assert_eq!(scalar_ascii, naive, "k={k}, len={len}");
        assert_eq!(scalar_packed, naive, "k={k}, len={len}");
        assert_eq!(simd_ascii, naive, "k={k}, len={len}");
        assert_eq!(simd_packed, naive, "k={k}, len={len}");
    });
}

#[test]
fn nthash_forward() {
    test_hash(|k| NtHasher::<false, 7>::new(k));
    test_hash(|k| NtHasher::<false, 7>::new_with_seed(k, 31415));
}

#[test]
fn nthash_canonical() {
    test_hash(|k| NtHasher::<true, 7>::new(k));
    test_hash(|k| NtHasher::<true, 7>::new_with_seed(k, 31415));
}

#[test]
fn mulhash_forward() {
    test_hash(|k| MulHasher::<false, 7>::new(k));
    test_hash(|k| MulHasher::<false, 7>::new_with_seed(k, 31415));
}

#[test]
fn mulhash_canonical() {
    test_hash(|k| MulHasher::<true, 7>::new(k));
    test_hash(|k| MulHasher::<true, 7>::new_with_seed(k, 31415));
}

#[test]
fn anti_lex_forward() {
    test_hash(|k| AntiLexHasher::<false>::new(k));
}

#[test]
fn anti_lex_canonical() {
    test_hash(|k| AntiLexHasher::<true>::new(k));
}
