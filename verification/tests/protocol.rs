use tensorcode::codegen::generate;
use tensorcode::codespec::CodeSpec;
use tensorcode::commit::{
    check_linear_combination_2_1, commit_2_dim, commit_3_dim, commit_4_dim, encode_axis0_2d,
    linear_combination_2_1, random_coeffs, random_coeffs_from_length,
};
use tensorcode::field::{Field, Ft127, Ft32};
use tensorcode::merkle::{check_merkle_path, leaf_hash_2d, merkle_tree_commit_2d, next_pow_2, PartialTree};
use tensorcode::rng::sample_index;
use tensorcode::simple_zk::commit_2_dim_simple_zk;
use tensorcode::tensor::Tensor2;

#[test]
fn end_to_end_two_dimensional() {
    // a 100 x 100 coefficient tensor, code length 172, five queries
    let cs = CodeSpec::code6();
    assert!(commit_2_dim::<Ft32>(10000, 100, 172, 0, 5, cs));
}

#[test]
fn end_to_end_two_dimensional_large_field() {
    let cs = CodeSpec::code6();
    assert!(commit_2_dim::<Ft127>(900, 30, 52, 3, 3, cs));
}

#[test]
fn end_to_end_three_dimensional() {
    // a 30 x 30 x 30 coefficient tensor, code length 52, five queries
    let cs = CodeSpec::code6();
    assert!(commit_3_dim::<Ft32>(27000, 30, 52, 0, 5, cs));
}

#[test]
fn end_to_end_four_dimensional() {
    let cs = CodeSpec::code6();
    assert!(commit_4_dim::<Ft32>(9261, 21, 37, 0, 2, cs));
}

#[test]
fn end_to_end_simple_zk() {
    let cs = CodeSpec::code6();
    assert!(commit_2_dim_simple_zk::<Ft32>(900, 30, 52, 0, 3, cs));
}

#[test]
fn misconfigured_rounds_are_detected() {
    let cs = CodeSpec::code6();
    // the message length does not clear the base-case length
    assert!(!commit_2_dim::<Ft32>(400, 20, 35, 0, 3, cs));
    // the code length does not match the rate
    assert!(!commit_2_dim::<Ft32>(900, 30, 53, 0, 3, cs));
    assert!(!commit_3_dim::<Ft32>(27000, 30, 51, 0, 3, cs));
}

/// An honest 2-d commitment, built by hand with fixed data, so that the
/// same queries can be replayed against a corrupted copy.
fn honest_commitment() -> (Vec<tensorcode::sparse::SparseMatrix<Ft32>>, Vec<tensorcode::sparse::SparseMatrix<Ft32>>, Tensor2<Ft32>, Vec<Ft32>, Vec<Ft32>) {
    let cs = CodeSpec::code6();
    let msg_len = 100;
    let code_len = 172;
    let (pre, post) = generate::<Ft32>(msg_len, 0, cs).unwrap();
    let mut m0 = Tensor2::<Ft32>::zero(code_len, msg_len);
    for i1 in 0..code_len {
        for i2 in 0..msg_len {
            m0.set(i1, i2, Ft32::from_word((i1 * 131 + i2 * 17 + 5) as u64));
        }
    }
    encode_axis0_2d(&mut m0, &pre, &post);
    let mut r1 = Vec::new();
    for j in 0..msg_len {
        r1.push(Ft32::from_word((j * 7919 + 3) as u64));
    }
    let m1 = linear_combination_2_1(msg_len, code_len, &m0, &r1);
    (pre, post, m0, r1, m1)
}

#[test]
fn all_fixed_queries_pass_for_honest_data() {
    let (pre, post, m0, r1, m1) = honest_commitment();
    let queries = [0usize, 41, 99, 137, 171];
    for &i1 in queries.iter() {
        assert!(check_linear_combination_2_1(100, 172, &m0, &m1, &r1, &pre, &post, i1));
    }
    let hashes = merkle_tree_commit_2d(100, 172, &m0);
    let np2 = next_pow_2(172);
    let mut map = PartialTree::new(hashes[0].clone(), hashes.len());
    for &i1 in queries.iter() {
        let leaf = leaf_hash_2d(&m0, i1);
        assert!(check_merkle_path(leaf, np2 - 1 + i1, &mut map, &hashes));
    }
}

#[test]
fn corrupting_one_entry_fails_the_covering_query() {
    let (pre, post, mut m0, r1, m1) = honest_commitment();
    let hashes = merkle_tree_commit_2d(100, 172, &m0);
    // flip one field element of the committed encoded array at row 41
    let old = m0.get(41, 13);
    m0.set(41, 13, old.add(Ft32::from_word(1)));
    let queries = [0usize, 41, 99, 137, 171];
    let mut consistency_failed = false;
    for &i1 in queries.iter() {
        if !check_linear_combination_2_1(100, 172, &m0, &m1, &r1, &pre, &post, i1) {
            consistency_failed = true;
            assert_eq!(i1, 41);
        }
    }
    // the corrupted row must fail either the consistency or the Merkle check
    let np2 = next_pow_2(172);
    let mut map = PartialTree::new(hashes[0].clone(), hashes.len());
    let leaf = leaf_hash_2d(&m0, 41);
    let merkle_failed = !check_merkle_path(leaf, np2 - 1 + 41, &mut map, &hashes);
    assert!(consistency_failed || merkle_failed);
}

#[test]
fn reduction_row_matches_direct_combination() {
    let (_, _, m0, r1, m1) = honest_commitment();
    // entry 12 of the reduction is the combination of row 12
    let mut expect = Ft32::zero();
    for i2 in 0..100 {
        expect = expect.add(r1[i2].mul(m0.get(12, i2)));
    }
    assert_eq!(m1[12], expect);
}

#[test]
fn sampled_indices_are_in_range() {
    for _ in 0..50 {
        assert!(sample_index(7) < 7);
        assert!(sample_index(1) < 1);
    }
}

#[test]
fn random_coefficients_have_requested_length() {
    let r = random_coeffs_from_length::<Ft32>(100);
    assert_eq!(r.len(), 100);
    let r2 = random_coeffs::<Ft32>(5);
    assert_eq!(r2.len(), 32);
    // a hundred independent draws cannot all collide
    let all_same = r.iter().all(|x| *x == r[0]);
    assert!(!all_same);
}

#[test]
fn code_spec_constructor_rejects_degenerate_rates() {
    // the rate must exceed one
    assert!(CodeSpec::new(1, 5, 1, 10, 25, 43, 20).is_none());
    // a valid parameter set is accepted
    let cs = CodeSpec::new(119, 500, 241, 2000, 43, 25, 20).unwrap();
    assert_eq!(cs, CodeSpec::code6());
    // alpha must stay below one
    assert!(CodeSpec::new(6, 5, 1, 10, 43, 25, 20).is_none());
}
