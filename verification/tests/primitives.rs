//! Unit tests for the field, Shamir, Merkle and erasure building blocks.
use wss_core::erasure::{get_shards, reconstruct_and_return, reconstruct_and_verify, ErasureError};
use wss_core::field::{add_mod, be8, inv_mod, mul_mod, pow_mod, FIELD_PRIME};
use sha2::Digest;
use wss_core::hashing::Hash32;
use wss_core::merkle::MerkleTree;
use wss_core::shamir::{poly_eval, reconstruct, split};

/// The deployment hash, computed independently of the library.
fn sha(data: &[u8]) -> Hash32 {
    Hash32 { bytes: sha2::Sha256::digest(data).to_vec() }
}

#[test]
fn be8_is_fixed_width_big_endian() {
    assert_eq!(be8(0), vec![0, 0, 0, 0, 0, 0, 0, 0]);
    assert_eq!(be8(1), vec![0, 0, 0, 0, 0, 0, 0, 1]);
    assert_eq!(be8(0x0102030405060708), vec![1, 2, 3, 4, 5, 6, 7, 8]);
    assert_eq!(be8(u64::MAX), vec![0xff; 8]);
}

#[test]
fn field_ops_match_arithmetic() {
    assert_eq!(add_mod(FIELD_PRIME - 1, 1), 0);
    assert_eq!(mul_mod(2, 3), 6);
    // (p-1)^2 = p^2 - 2p + 1 = 1 mod p
    assert_eq!(mul_mod(FIELD_PRIME - 1, FIELD_PRIME - 1), 1);
    assert_eq!(pow_mod(2, 10), 1024);
    // Fermat: a * a^(p-2) = 1 mod p
    assert_eq!(mul_mod(12345, inv_mod(12345)), 1);
}

#[test]
fn poly_eval_is_horner() {
    // 5 + 3x + 2x^2 at x = 4: 5 + 12 + 32 = 49
    let coeffs = vec![5u64, 3, 2];
    assert_eq!(poly_eval(&coeffs, 4), 49);
}

#[test]
fn shamir_round_trip_from_any_two_shares() {
    // the dealer's polynomial is 42 + 7x over the deployment prime
    let shares = split(42, &vec![7], 4);
    assert_eq!(shares, vec![49, 56, 63, 70]);
    // any f+1 = 2 shares recover the secret (the round-trip law)
    let pairs = [(0usize, 1usize), (0, 2), (0, 3), (1, 2), (1, 3), (2, 3)];
    for (i, j) in pairs {
        let picked = vec![
            ((i as u64) + 1, shares[i]),
            ((j as u64) + 1, shares[j]),
        ];
        assert_eq!(reconstruct(&picked), 42, "shares {} and {}", i, j);
    }
    // three shares also work
    let picked = vec![(1u64, shares[0]), (3u64, shares[2]), (4u64, shares[3])];
    assert_eq!(reconstruct(&picked), 42);
}

#[test]
fn shamir_large_secret_round_trip() {
    let secret = FIELD_PRIME - 5;
    let shares = split(secret, &vec![123456789], 4);
    let picked = vec![(2u64, shares[1]), (4u64, shares[3])];
    assert_eq!(reconstruct(&picked), secret);
}

#[test]
fn merkle_proofs_validate_and_bind() {
    let items: Vec<Hash32> = (0..4u8).map(|i| sha(&[i])).collect();
    let tree = MerkleTree::build(items);
    let root = tree.root();
    for i in 0..4 {
        let proof = tree.gen_proof(i);
        assert_eq!(proof.index, i);
        assert!(proof.validate(), "proof {} must validate", i);
        assert_eq!(proof.root.bytes, root.bytes);
    }
    // a tampered leaf item no longer validates
    let mut bad = tree.gen_proof(2);
    bad.item.bytes[0] ^= 0x01;
    assert!(!bad.validate());
    // a tampered sibling no longer validates
    let mut bad = tree.gen_proof(2);
    bad.path[0].bytes[0] ^= 0x01;
    assert!(!bad.validate());
}

#[test]
fn erasure_shards_are_systematic() {
    // an even split: ceil(100/2) = 50 bytes per shard, no padding
    let data: Vec<u8> = (0..100).collect();
    let shards = get_shards(data.clone(), 1);
    assert_eq!(shards.len(), 4);
    for s in &shards {
        assert_eq!(s.len(), 50);
    }
    let rebuilt: Vec<u8> = shards[0].iter().chain(shards[1].iter()).copied().collect();
    assert_eq!(rebuilt, data);
    // an odd split: ceil(101/2) = 51 bytes per shard, one zero pad byte
    let data: Vec<u8> = (0..101).collect();
    let shards = get_shards(data.clone(), 1);
    for s in &shards {
        assert_eq!(s.len(), 51);
    }
    let rebuilt: Vec<u8> = shards[0].iter().chain(shards[1].iter()).copied().collect();
    assert_eq!(&rebuilt[..101], &data[..]);
    assert_eq!(&rebuilt[101..], &[0]);
}

#[test]
fn erasure_round_trip_from_any_two_shards() {
    let data: Vec<u8> = (0..100).collect();
    let shards = get_shards(data.clone(), 1);
    for keep in [(0usize, 1usize), (0, 3), (1, 2), (2, 3)] {
        let mut map: Vec<Option<Vec<u8>>> = vec![None; 4];
        map[keep.0] = Some(shards[keep.0].clone());
        map[keep.1] = Some(shards[keep.1].clone());
        let rebuilt = reconstruct_and_return(&map, 4, 1).expect("reconstruction");
        assert_eq!(&rebuilt[..100], &data[..], "shards {:?}", keep);
    }
}

#[test]
fn erasure_shortage_is_reported() {
    let data: Vec<u8> = (0..100).collect();
    let shards = get_shards(data, 1);
    let mut map: Vec<Option<Vec<u8>>> = vec![None; 4];
    map[2] = Some(shards[2].clone());
    assert_eq!(reconstruct_and_return(&map, 4, 1), Err(ErasureError::ErasureShortage));
}

#[test]
fn reconstruct_and_verify_checks_the_root() {
    let data: Vec<u8> = (7..107).collect();
    let shards = get_shards(data, 1);
    let items: Vec<Hash32> = shards.iter().map(|s| sha(s)).collect();
    let tree = MerkleTree::build(items);
    let root = tree.root();
    let mut map: Vec<Option<(Vec<u8>, wss_core::merkle::MerkleProof)>> = vec![None, None, None, None];
    map[1] = Some((shards[1].clone(), tree.gen_proof(1)));
    map[2] = Some((shards[2].clone(), tree.gen_proof(2)));
    // with the right root, replica 0 gets its shard and a valid fresh proof
    let (shard0, proof0) = reconstruct_and_verify(&map, 4, 1, 0, &root).expect("rebuild");
    assert_eq!(shard0, shards[0]);
    assert_eq!(proof0.index, 0);
    assert!(proof0.validate());
    assert_eq!(proof0.root.bytes, root.bytes);
    // with a different root the rebuild is refused
    let mut wrong = Hash32 { bytes: root.bytes.clone() };
    wrong.bytes[5] ^= 0x10;
    assert!(matches!(
        reconstruct_and_verify(&map, 4, 1, 0, &wrong),
        Err(ErasureError::ReconstructionRootMismatch)
    ));
    // with too few shards the rebuild reports a shortage
    map[1] = None;
    assert!(matches!(
        reconstruct_and_verify(&map, 4, 1, 0, &root),
        Err(ErasureError::ErasureShortage)
    ));
}

#[test]
fn digest_comparison_is_byte_exact() {
    let a = sha(&[1, 2, 3]);
    let b = sha(&[1, 2, 3]);
    let c = sha(&[1, 2, 4]);
    assert_eq!(a.bytes.len(), 32);
    assert!(a.equals(&b));
    assert!(!a.equals(&c));
}
