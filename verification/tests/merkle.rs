use tensorcode::field::{Field, Ft32};
use tensorcode::hash::{bytes_eq, hash_bytes};
use tensorcode::merkle::{
    build_merkle_tree, check_merkle_path, leaf_hash_2d, merkle_tree_commit_2d, next_pow_2,
    PartialTree,
};
use tensorcode::tensor::Tensor2;

fn small_tensor(d1: usize, d2: usize) -> Tensor2<Ft32> {
    let mut data = Vec::new();
    for i in 0..d1 * d2 {
        data.push(Ft32::from_word(100 + 7 * i as u64));
    }
    Tensor2 { d1, d2, data }
}

#[test]
fn next_pow_2_values() {
    assert_eq!(next_pow_2(0), 1);
    assert_eq!(next_pow_2(1), 1);
    assert_eq!(next_pow_2(2), 2);
    assert_eq!(next_pow_2(3), 4);
    assert_eq!(next_pow_2(4), 4);
    assert_eq!(next_pow_2(5), 8);
    assert_eq!(next_pow_2(172), 256);
}

#[test]
fn hash_bytes_is_32_bytes_and_input_sensitive() {
    let a = hash_bytes(&vec![1, 2, 3]);
    let b = hash_bytes(&vec![1, 2, 4]);
    assert_eq!(a.len(), 32);
    assert_eq!(b.len(), 32);
    assert!(!bytes_eq(&a, &b));
    let a2 = hash_bytes(&vec![1, 2, 3]);
    assert!(bytes_eq(&a, &a2));
}

#[test]
fn tree_nodes_hash_their_children() {
    let m = small_tensor(3, 2);
    let hashes = merkle_tree_commit_2d(2, 3, &m);
    let np2 = next_pow_2(3);
    assert_eq!(hashes.len(), 2 * np2 - 1);
    for i in 0..np2 - 1 {
        let mut buf = hashes[2 * i + 1].clone();
        buf.extend_from_slice(&hashes[2 * i + 2]);
        assert_eq!(hashes[i], hash_bytes(&buf));
    }
    // the leaves are the row hashes
    for i1 in 0..3 {
        assert_eq!(hashes[np2 - 1 + i1], leaf_hash_2d(&m, i1));
    }
}

#[test]
fn genuine_paths_verify_and_share_the_record() {
    let m = small_tensor(5, 4);
    let hashes = merkle_tree_commit_2d(4, 5, &m);
    let np2 = next_pow_2(5);
    let mut map = PartialTree::new(hashes[0].clone(), hashes.len());
    for i1 in 0..5 {
        let leaf = leaf_hash_2d(&m, i1);
        assert!(check_merkle_path(leaf, np2 - 1 + i1, &mut map, &hashes));
    }
}

#[test]
fn tampered_sibling_fails_the_path_check() {
    let m = small_tensor(5, 4);
    let hashes = merkle_tree_commit_2d(4, 5, &m);
    let np2 = next_pow_2(5);
    let idx = np2 - 1 + 1;
    // flip one bit of the sibling on the path
    let mut tampered = hashes.clone();
    tampered[idx - 1][0] ^= 1;
    let mut map = PartialTree::new(hashes[0].clone(), hashes.len());
    let leaf = leaf_hash_2d(&m, 1);
    assert!(!check_merkle_path(leaf, idx, &mut map, &tampered));
}

#[test]
fn tampered_leaf_fails_the_path_check() {
    let m = small_tensor(5, 4);
    let hashes = merkle_tree_commit_2d(4, 5, &m);
    let np2 = next_pow_2(5);
    let mut map = PartialTree::new(hashes[0].clone(), hashes.len());
    let mut leaf = leaf_hash_2d(&m, 2);
    leaf[7] ^= 0x80;
    assert!(!check_merkle_path(leaf, np2 - 1 + 2, &mut map, &hashes));
}

#[test]
fn conflicting_claims_for_a_shared_slot_are_rejected() {
    let m = small_tensor(4, 3);
    let hashes = merkle_tree_commit_2d(3, 4, &m);
    let np2 = next_pow_2(4);
    let mut map = PartialTree::new(hashes[0].clone(), hashes.len());
    // a first genuine query records the ancestors of leaf 0
    let leaf0 = leaf_hash_2d(&m, 0);
    assert!(check_merkle_path(leaf0, np2 - 1, &mut map, &hashes));
    // a second query over the same slots with a forged sibling array must
    // disagree with the recorded claims or the root
    let mut tampered = hashes.clone();
    tampered[np2 - 1 + 1][3] ^= 4;
    let mut forged_leaf = leaf_hash_2d(&m, 1);
    forged_leaf[0] ^= 1;
    assert!(!check_merkle_path(forged_leaf, np2 - 1 + 1, &mut map, &tampered));
}

#[test]
fn build_merkle_tree_fills_internal_slots() {
    let mut data = Vec::new();
    for i in 0..7 {
        data.push(hash_bytes(&vec![i as u8]));
    }
    let expect_l = {
        let mut buf = data[3].clone();
        buf.extend_from_slice(&data[4]);
        hash_bytes(&buf)
    };
    build_merkle_tree(&mut data, 4);
    assert_eq!(data[1], expect_l);
}
