//! Canonical hashing is invariant under reverse complementation, and
//! differently seeded hashers give different streams.
use packed_seq::{AsciiSeqVec, PackedSeqVec, SeqVec};
use rand::RngExt;
use seq_hash::{AntiLexHasher, KmerHasher, MulHasher, NtHasher};
use std::sync::LazyLock;

static ASCII_SEQ: LazyLock<AsciiSeqVec> = LazyLock::new(|| AsciiSeqVec::random(1024 * 8));
static PACKED_SEQ: LazyLock<PackedSeqVec> =
    LazyLock::new(|| PackedSeqVec::from_ascii(&ASCII_SEQ.seq));

fn bps<'s, S: packed_seq::Seq<'s>>(s: S) -> Vec<u8> {
    packed_seq::Seq::iter_bp(s).collect()
}

#[test]
fn canonical_is_revcomp() {
    fn f<H: KmerHasher>(hasher: impl Fn(usize) -> H) {
        let seq = &*ASCII_SEQ;
        let seq_rc = packed_seq::Seq::to_revcomp(&seq.as_slice());
        let n = seq.len();
        for k in [1, 2, 3, 4, 5, 6, 7, 8, 9, 15, 16, 17, 31, 32, 33, 63, 64, 65] {
            let hasher = hasher(k);
            let mut lens: Vec<usize> = (0..100).collect();
            for _ in 0..10 {
                lens.push(rand::random_range(1024..8 * 1024));
            }
            for &len in &lens {
                let s = bps(seq.slice(0..len));
                let s_rc = bps(seq_rc.slice(n - len..n));
                let scalar = hasher.hash_kmers_scalar(&s);
                let scalar_rc = hasher.hash_kmers_scalar(&s_rc);
                let scalar_rc_rc: Vec<u32> = scalar_rc.iter().rev().copied().collect();
                assert_eq!(
                    scalar_rc_rc,
                    scalar,
                    "k={}, len={} {:032b} {:032b}",
                    k,
                    len,
                    scalar.first().unwrap_or(&0),
                    scalar_rc_rc.first().unwrap_or(&0)
                );
            }
        }
    }
    f(|k| NtHasher::<true, 7>::new(k));
    f(|k| MulHasher::<true, 7>::new(k));
    f(|k| AntiLexHasher::<true>::new(k));
}

#[test]
fn seeded() {
    let packed_seq = &*PACKED_SEQ;
    let mut rng = rand::rng();
    let mut ks = vec![1, 2, 3, 4, 5, 31, 32, 33, 63, 64, 65];
    let mut lens: Vec<usize> = (0..100).collect();
    for _ in 0..10 {
        ks.push(rng.random_range(6..100));
    }
    for _ in 0..10 {
        lens.push(rng.random_range(100..1024 * 8));
    }
    for &k in &ks {
        for &len in &lens {
            let offset = rng.random_range(0..=3.min(len));
            let p = bps(packed_seq.slice(offset..len));

            let hasher1 = NtHasher::<true, 7>::new(k);
            let hasher2 = NtHasher::<true, 7>::new_with_seed(k, 31415);
            let hasher3 = NtHasher::<true, 7>::new_with_seed(k, 75765);

            let pos1 = hasher1.hash_kmers_simd(&p, 1).to_vec();
            let pos2 = hasher2.hash_kmers_simd(&p, 1).to_vec();
            let pos3 = hasher3.hash_kmers_simd(&p, 1).to_vec();

            if pos1.len() >= 3 {
                assert_ne!(pos1, pos2, "k={k}, len={len}");
                assert_ne!(pos1, pos3, "k={k}, len={len}");
                assert_ne!(pos2, pos3, "k={k}, len={len}");
            }
        }
    }
}
