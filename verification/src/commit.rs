//! The tensor commitment protocol.
//!
//! The prover holds a tensor of field elements, encodes it along every axis
//! but the last, hashes the encoded tensor's last-axis fibers into a Merkle
//! tree per reduction level, and reduces the tensor level by level with
//! random linear combinations.  The verifier regenerates the code, samples
//! random coordinates, and checks at each one that the claimed reduction is
//! consistent with the code (`check_linear_combination_*`) and with the
//! trees (`check_merkle_path`).  The `commit_*_dim` drivers run one honest
//! commit-and-verify round; linearity of the code makes every honest query
//! pass, so they are proved to return true.

use crate::codegen::{chain_lens, generate, generated_chain, sizes_ok, target_len};
use crate::codespec::CodeSpec;
use crate::encode::{
    chain_wf, codeword_len_spec, codeword_spec, encode, post_width_ok, pre_link_ok,
};
use crate::field::Field;
use crate::linearity::{combo_prefix, combo_seq, lemma_codeword_combo};
use crate::merkle::{
    check_merkle_path, fiber3_vals, leaf_hash_2d, leaf_hash_3d, leaf_hash_4d,
    lemma_climb_complete, lemma_leaf_index_3d, lemma_leaf_index_4d, map_agrees,
    merkle_tree_commit_2d, merkle_tree_commit_3d, merkle_tree_commit_4d, next_pow_2, np2,
    reprs_cat, row2_vals, tree_linked, views_of, PartialTree,
};
use crate::rng::{random_word, sample_index};
use crate::sparse::{all_inv, vals_of, vals_window, SparseMatrix};
use crate::tensor::{Tensor2, Tensor3, Tensor4};
use vstd::prelude::*;

verus! {

use vstd::arithmetic::div_mod::lemma_add_mod_noop_right;

/// `len` random field elements from the thread-local generator.
pub fn random_coeffs_from_length<F: Field>(len: usize) -> (r: Vec<F>)
    ensures
        r@.len() == len,
        all_inv(r@),
{
    let mut r: Vec<F> = Vec::new();
    let mut i: usize = 0;
    while i < len
        invariant
            i <= len,
            r@.len() == i,
            all_inv(r@),
        decreases len - i,
    {
        r.push(F::from_word(random_word()));
        i = i + 1;
    }
    r
}

/// `2^log_len` random field elements from the thread-local generator.
pub fn random_coeffs<F: Field>(log_len: usize) -> (r: Vec<F>)
    requires
        log_len < 32,
    ensures
        r@.len() == (1usize << log_len),
        all_inv(r@),
{
    let n = 1usize << log_len;
    random_coeffs_from_length::<F>(n)
}

/// The random linear combination of the first `j` columns of row `i1`,
/// accumulated left to right with a reduction after each step.
pub open spec fn lc2_prefix<F: Field>(m: Tensor2<F>, r: Seq<nat>, i1: int, j: int, p: nat) -> nat
    decreases j,
{
    if j <= 0 {
        0
    } else {
        (lc2_prefix(m, r, i1, j - 1, p) + r[j - 1] * m.at(i1, j - 1)) % p
    }
}

/// The random linear combination of row `i1` of a two-dimensional array.
pub open spec fn lc2_at<F: Field>(m: Tensor2<F>, r: Seq<nat>, i1: int, p: nat) -> nat {
    lc2_prefix(m, r, i1, r.len() as int, p)
}

/// Reduce the committed two-dimensional array along its last axis: entry
/// `i1` of the result is the `r`-combination of row `i1`, for the first
/// `msg_len` rows.
pub fn linear_combination_2_1<F: Field>(
    msg_len: usize,
    code_len: usize,
    m_2d: &Tensor2<F>,
    r: &Vec<F>,
) -> (res: Vec<F>)
    requires
        m_2d.wf(),
        m_2d.d1 == code_len,
        m_2d.d2 == msg_len,
        msg_len <= code_len,
        r@.len() == msg_len,
        all_inv(r@),
    ensures
        res@.len() == msg_len,
        all_inv(res@),
        forall|i1: int|
            0 <= i1 < msg_len ==> (#[trigger] res@[i1]).val() == lc2_at(
                *m_2d,
                vals_of(r@),
                i1,
                F::modulus(),
            ),
{
    let ghost p = F::modulus();
    let ghost rv = vals_of(r@);
    proof {
        F::lemma_modulus();
    }
    let mut res: Vec<F> = Vec::new();
    let mut i1: usize = 0;
    while i1 < msg_len
        invariant
            i1 <= msg_len,
            m_2d.wf(),
            m_2d.d1 == code_len,
            m_2d.d2 == msg_len,
            msg_len <= code_len,
            r@.len() == msg_len,
            all_inv(r@),
            p == F::modulus(),
            p > 1,
            rv == vals_of(r@),
            res@.len() == i1,
            all_inv(res@),
            forall|t: int| 0 <= t < i1 ==> (#[trigger] res@[t]).val() == lc2_at(*m_2d, rv, t, p),
        decreases msg_len - i1,
    {
        let s = lc2_row(msg_len, m_2d, r, i1);
        res.push(s);
        i1 = i1 + 1;
    }
    res
}

/// The `r`-combination of one row of a two-dimensional array.
pub(crate) fn lc2_row<F: Field>(msg_len: usize, m_2d: &Tensor2<F>, r: &Vec<F>, i1: usize) -> (s: F)
    requires
        m_2d.wf(),
        m_2d.d2 == msg_len,
        i1 < m_2d.d1,
        r@.len() == msg_len,
        all_inv(r@),
    ensures
        s.inv(),
        s.val() == lc2_at(*m_2d, vals_of(r@), i1 as int, F::modulus()),
{
    let ghost p = F::modulus();
    let ghost rv = vals_of(r@);
    proof {
        F::lemma_modulus();
    }
    let mut s = F::zero();
    let mut i2: usize = 0;
    while i2 < msg_len
        invariant
            i2 <= msg_len,
            m_2d.wf(),
            m_2d.d2 == msg_len,
            i1 < m_2d.d1,
            r@.len() == msg_len,
            all_inv(r@),
            p == F::modulus(),
            p > 1,
            rv == vals_of(r@),
            s.inv(),
            s.val() == lc2_prefix(*m_2d, rv, i1 as int, i2 as int, p),
        decreases msg_len - i2,
    {
        let t = r[i2].mul(m_2d.get(i1, i2));
        proof {
            lemma_add_mod_noop_right(
                s.val() as int,
                (r@[i2 as int].val() * m_2d.at(i1 as int, i2 as int)) as int,
                p as int,
            );
            assert(rv[i2 as int] == r@[i2 as int].val());
        }
        s = s.add(t);
        i2 = i2 + 1;
    }
    s
}

/// The verifier's consistency check between two adjacent reduction levels:
/// encode the claimed reduced row and compare its entry at the sampled
/// coordinate `i1` against the `r`-combination of the opened row of the
/// level above.  Returns exactly whether the defining relation of the
/// reduction holds at `i1`.
pub fn check_linear_combination_2_1<F: Field>(
    msg_len: usize,
    code_len: usize,
    m_2d: &Tensor2<F>,
    m_1d: &Vec<F>,
    r: &Vec<F>,
    precodes: &Vec<SparseMatrix<F>>,
    postcodes: &Vec<SparseMatrix<F>>,
    i1: usize,
) -> (ok: bool)
    requires
        chain_wf(precodes@, postcodes@),
        precodes@[0].cols == msg_len,
        codeword_len_spec(precodes@, postcodes@) == code_len,
        m_2d.wf(),
        m_2d.d1 == code_len,
        m_2d.d2 == msg_len,
        msg_len <= code_len,
        m_1d@.len() == msg_len,
        all_inv(m_1d@),
        r@.len() == msg_len,
        all_inv(r@),
        i1 < code_len,
    ensures
        ok == (codeword_spec(precodes@, postcodes@, vals_of(m_1d@), F::modulus())[i1 as int]
            == lc2_at(*m_2d, vals_of(r@), i1 as int, F::modulus())),
{
    let ghost p = F::modulus();
    proof {
        F::lemma_modulus();
        crate::encode::lemma_codeword_len_agree(precodes@, postcodes@, vals_of(m_1d@), p);
    }
    let mut msg: Vec<F> = Vec::new();
    let mut t: usize = 0;
    while t < msg_len
        invariant
            t <= msg_len,
            m_1d@.len() == msg_len,
            all_inv(m_1d@),
            msg@ =~= m_1d@.subrange(0, t as int),
        decreases msg_len - t,
    {
        msg.push(m_1d[t]);
        t = t + 1;
    }
    proof {
        assert(msg@ =~= m_1d@);
    }
    let z = F::zero();
    while msg.len() < code_len
        invariant
            m_1d@.len() <= msg@.len() <= code_len,
            msg@.subrange(0, m_1d@.len() as int) == m_1d@,
            m_1d@.len() == msg_len,
            msg_len <= code_len,
            all_inv(msg@),
            z.inv(),
        decreases code_len - msg@.len(),
    {
        msg.push(z);
        proof {
            assert(msg@.subrange(0, m_1d@.len() as int) =~= m_1d@);
        }
    }
    let ghost msg_before = msg@;
    encode(&mut msg, precodes, postcodes);
    proof {
        assert(vals_window(msg_before, 0, msg_len as int) =~= vals_of(m_1d@));
    }
    let s = lc2_row(msg_len, m_2d, r, i1);
    proof {
        assert(vals_of(msg@)[i1 as int] == msg@[i1 as int].val());
    }
    let ok = s.eq_elt(msg[i1]);
    ok
}

/// Residues of the column `i2` of a two-dimensional array.
pub open spec fn col2_vals<F: Field>(m: Tensor2<F>, i2: int) -> Seq<nat> {
    Seq::new(m.d1 as nat, |i1: int| m.at(i1, i2))
}

/// Residues of the first `n` entries of column `i2`.
pub open spec fn col2_prefix<F: Field>(m: Tensor2<F>, i2: int, n: int) -> Seq<nat> {
    Seq::new(n as nat, |i1: int| m.at(i1, i2))
}

/// Every column of the array is the codeword of its own message prefix.
pub open spec fn encoded_cols2<F: Field>(
    m: Tensor2<F>,
    pre: Seq<SparseMatrix<F>>,
    post: Seq<SparseMatrix<F>>,
    p: nat,
) -> bool {
    forall|i2: int|
        0 <= i2 < m.d2 ==> #[trigger] col2_vals(m, i2) == codeword_spec(
            pre,
            post,
            col2_prefix(m, i2, pre[0].cols as int),
            p,
        )
}

/// Encode the committed array along its first axis: each column's first
/// `precodes[0].cols` entries are its message, and the whole column becomes
/// that message's codeword.
#[verifier::rlimit(100)]
#[verifier::spinoff_prover]
pub fn encode_axis0_2d<F: Field>(
    m: &mut Tensor2<F>,
    precodes: &Vec<SparseMatrix<F>>,
    postcodes: &Vec<SparseMatrix<F>>,
)
    requires
        chain_wf(precodes@, postcodes@),
        old(m).wf(),
        old(m).d1 == codeword_len_spec(precodes@, postcodes@),
        precodes@[0].cols <= old(m).d1,
    ensures
        final (m).wf(),
        final (m).d1 == old(m).d1,
        final (m).d2 == old(m).d2,
        encoded_cols2(*final (m), precodes@, postcodes@, F::modulus()),
{
    let ghost p = F::modulus();
    proof {
        F::lemma_modulus();
    }
    let code_len = m.d1;
    let d2 = m.d2;
    let mut i2: usize = 0;
    while i2 < d2
        invariant
            i2 <= d2,
            chain_wf(precodes@, postcodes@),
            p == F::modulus(),
            p > 1,
            m.wf(),
            m.d1 == code_len,
            m.d2 == d2,
            code_len == codeword_len_spec(precodes@, postcodes@),
            precodes@[0].cols <= code_len,
            forall|t: int|
                0 <= t < i2 ==> #[trigger] col2_vals(*m, t) == codeword_spec(
                    precodes@,
                    postcodes@,
                    col2_prefix(*m, t, precodes@[0].cols as int),
                    p,
                ),
        decreases d2 - i2,
    {
        // read the column out
        let mut col: Vec<F> = Vec::new();
        let mut i1: usize = 0;
        while i1 < code_len
            invariant
                i1 <= code_len,
                m.wf(),
                m.d1 == code_len,
                m.d2 == d2,
                i2 < d2,
                col@.len() == i1,
                all_inv(col@),
                forall|t: int| 0 <= t < i1 ==> (#[trigger] col@[t]).val() == m.at(t, i2 as int),
            decreases code_len - i1,
        {
            col.push(m.get(i1, i2));
            i1 = i1 + 1;
        }
        proof {
            assert(vals_of(col@) =~= col2_vals(*m, i2 as int));
        }
        let ghost col_before = col@;
        let ghost m_before = *m;
        encode(&mut col, precodes, postcodes);
        proof {
            assert(vals_window(col_before, 0, precodes@[0].cols as int) =~= col2_prefix(
                m_before,
                i2 as int,
                precodes@[0].cols as int,
            ));
        }
        // write the codeword back
        let mut i1b: usize = 0;
        while i1b < code_len
            invariant
                i1b <= code_len,
                m.wf(),
                m.d1 == code_len,
                m.d2 == d2,
                i2 < d2,
                col@.len() == code_len,
                all_inv(col@),
                forall|j1: int, j2: int|
                    0 <= j1 < code_len && 0 <= j2 < d2 && j2 != i2 ==> #[trigger] m.at(j1, j2)
                        == m_before.at(j1, j2),
                forall|j1: int| 0 <= j1 < i1b ==> #[trigger] m.at(j1, i2 as int) == col@[j1].val(),
                forall|j1: int|
                    i1b <= j1 < code_len ==> #[trigger] m.at(j1, i2 as int) == m_before.at(
                        j1,
                        i2 as int,
                    ),
            decreases code_len - i1b,
        {
            m.set(i1b, i2, col[i1b]);
            i1b = i1b + 1;
        }
        proof {
            // this column is now the codeword of its own prefix
            let l0 = precodes@[0].cols as int;
            assert(col2_vals(*m, i2 as int) =~= vals_of(col@));
            crate::encode::lemma_codeword_spec_len(precodes@, postcodes@, vals_window(col_before, 0, l0), p);
            assert forall|j1: int| 0 <= j1 < l0 implies #[trigger] m.at(j1, i2 as int)
                == col2_prefix(m_before, i2 as int, l0)[j1] by {
                assert(m.at(j1, i2 as int) == col@[j1].val());
                assert(vals_of(col@)[j1] == codeword_spec(
                    precodes@,
                    postcodes@,
                    vals_window(col_before, 0, l0),
                    p,
                )[j1]);
                assert(codeword_spec(
                    precodes@,
                    postcodes@,
                    vals_window(col_before, 0, l0),
                    p,
                )[j1] == vals_window(col_before, 0, l0)[j1]);
            }
            assert(col2_prefix(*m, i2 as int, l0) =~= col2_prefix(m_before, i2 as int, l0));
            assert(col2_vals(*m, i2 as int) == codeword_spec(
                precodes@,
                postcodes@,
                col2_prefix(*m, i2 as int, l0),
                p,
            ));
            // earlier columns are untouched
            assert forall|t: int| 0 <= t < i2 implies #[trigger] col2_vals(*m, t)
                == codeword_spec(precodes@, postcodes@, col2_prefix(*m, t, l0), p) by {
                assert(col2_vals(*m, t) =~= col2_vals(m_before, t));
                assert(col2_prefix(*m, t, l0) =~= col2_prefix(m_before, t, l0));
            }
        }
        i2 = i2 + 1;
    }
}

/// At every coordinate of the codeword, the combination of one row of an
/// encoded array equals the codeword of the combined messages: column
/// structure plus linearity.
pub proof fn lemma_lc2_complete<F: Field>(
    pre: Seq<SparseMatrix<F>>,
    post: Seq<SparseMatrix<F>>,
    m: Tensor2<F>,
    rv: Seq<nat>,
    m1v: Seq<nat>,
    p: nat,
)
    requires
        p > 1,
        chain_wf(pre, post),
        m.wf(),
        m.d2 == rv.len(),
        m.d2 == pre[0].cols,
        m.d1 == codeword_len_spec(pre, post),
        encoded_cols2(m, pre, post, p),
        m1v.len() == m.d2,
        forall|i: int| 0 <= i < m1v.len() ==> #[trigger] m1v[i] == lc2_at(m, rv, i, p),
    ensures
        forall|i1: int|
            0 <= i1 < m.d1 ==> #[trigger] codeword_spec(pre, post, m1v, p)[i1] == lc2_at(
                m,
                rv,
                i1,
                p,
            ),
{
    let l0 = pre[0].cols as nat;
    let nn = (pre[0].cols + post[0].cols + post[0].rows) as nat;
    let xs_list = Seq::new(rv.len(), |j: int| col2_prefix(m, j, l0 as int));
    let ws_list = Seq::new(rv.len(), |j: int| col2_vals(m, j));
    assert forall|t: int| 0 <= t < ws_list.len() implies #[trigger] ws_list[t] == codeword_spec(
        pre,
        post,
        xs_list[t],
        p,
    ) by {
        assert(col2_vals(m, t) == codeword_spec(pre, post, col2_prefix(m, t, l0 as int), p));
    }
    lemma_codeword_combo(pre, post, xs_list, ws_list, rv, rv.len() as int, p);
    // the combination of the messages is exactly the reduced row vector
    assert forall|i: int, j: int|
        0 <= i < l0 && 0 <= j <= rv.len() implies #[trigger] combo_prefix(xs_list, rv, i, j, p)
        == lc2_prefix(m, rv, i, j, p) by {
        lemma_combo_is_lc2(xs_list, m, rv, i, j, p, l0 as int);
    }
    assert(combo_seq(xs_list, rv, l0, rv.len() as int, p) =~= m1v);
    // and the combination of the codewords is the row combination everywhere
    crate::encode::lemma_codeword_len_agree(pre, post, m1v, p);
    crate::encode::lemma_codeword_spec_len(pre, post, m1v, p);
    assert forall|i1: int| 0 <= i1 < m.d1 implies #[trigger] codeword_spec(pre, post, m1v, p)[i1]
        == lc2_at(m, rv, i1, p) by {
        lemma_combo_is_lc2_full(ws_list, m, rv, i1, rv.len() as int, p);
        assert(codeword_spec(pre, post, m1v, p)[i1] == combo_seq(
            ws_list,
            rv,
            nn,
            rv.len() as int,
            p,
        )[i1]);
    }
}

/// The abstract combination over column prefixes equals the row combination.
proof fn lemma_combo_is_lc2<F: Field>(
    xs_list: Seq<Seq<nat>>,
    m: Tensor2<F>,
    rv: Seq<nat>,
    i: int,
    j: int,
    p: nat,
    l0: int,
)
    requires
        xs_list.len() == rv.len(),
        0 <= i < l0,
        0 <= j <= rv.len(),
        forall|t: int| 0 <= t < rv.len() ==> #[trigger] xs_list[t] == col2_prefix(m, t, l0),
    ensures
        combo_prefix(xs_list, rv, i, j, p) == lc2_prefix(m, rv, i, j, p),
    decreases j,
{
    if j > 0 {
        lemma_combo_is_lc2(xs_list, m, rv, i, j - 1, p, l0);
        assert(xs_list[j - 1][i] == m.at(i, j - 1));
    }
}

/// The abstract combination over whole columns equals the row combination.
proof fn lemma_combo_is_lc2_full<F: Field>(
    ws_list: Seq<Seq<nat>>,
    m: Tensor2<F>,
    rv: Seq<nat>,
    i: int,
    j: int,
    p: nat,
)
    requires
        ws_list.len() == rv.len(),
        0 <= i < m.d1,
        0 <= j <= rv.len(),
        forall|t: int| 0 <= t < rv.len() ==> #[trigger] ws_list[t] == col2_vals(m, t),
    ensures
        combo_prefix(ws_list, rv, i, j, p) == lc2_prefix(m, rv, i, j, p),
    decreases j,
{
    if j > 0 {
        lemma_combo_is_lc2_full(ws_list, m, rv, i, j - 1, p);
        assert(ws_list[j - 1][i] == m.at(i, j - 1));
    }
}

/// A generated chain fits the encoder: the shapes link up, the outermost
/// input is the message length, and the codeword is `target_len` long.
pub proof fn lemma_generated_chain_wf<F: Field>(
    pre: Seq<SparseMatrix<F>>,
    post: Seq<SparseMatrix<F>>,
    msg_len: nat,
    seed: u64,
    cs: CodeSpec,
)
    requires
        generated_chain(pre, post, msg_len, seed, cs),
        sizes_ok(msg_len, cs),
    ensures
        chain_wf(pre, post),
        pre[0].cols == msg_len,
        codeword_len_spec(pre, post) == target_len(msg_len, cs),
{
    let lens = chain_lens(msg_len, cs);
    let k = lens.len() - 1;
    crate::codegen::lemma_chain_lens(msg_len, cs);
    assert(pre.len() == k && post.len() == k && k >= 1);
    assert forall|i: int| 0 <= i < k - 1 implies #[trigger] pre_link_ok(pre, i) by {
        assert(pre[i].rows == lens[i + 1]);
        assert(pre[i + 1].cols == lens[i + 1]);
    }
    assert forall|j: int| 0 <= j < k - 1 implies #[trigger] post_width_ok(pre, post, j) by {
        assert(crate::codegen::level_ok(lens, cs, j + 1));
        assert(post[j].cols == target_len(lens[j + 1], cs));
        assert(pre[j].rows == lens[j + 1]);
        assert(post[j + 1].cols == target_len(lens[j + 2], cs));
        assert(post[j + 1].rows == (target_len(lens[j + 1], cs) - lens[j + 1] - target_len(
            lens[j + 2],
            cs,
        )) as nat);
    }
    assert(chain_wf(pre, post));
    // the codeword length telescopes to the outermost target
    assert(crate::codegen::level_ok(lens, cs, 0));
    crate::encode::lemma_codeword_len_agree(
        pre,
        post,
        crate::linearity::zero_seq(pre[0].cols as nat),
        F::modulus(),
    );
    crate::encode::lemma_codeword_spec_len(
        pre,
        post,
        crate::linearity::zero_seq(pre[0].cols as nat),
        F::modulus(),
    );
    assert(post[0].cols == target_len(lens[1], cs));
    assert(post[0].rows == (target_len(lens[0], cs) - lens[0] - target_len(lens[1], cs)) as nat);
    assert(lens[0] == msg_len);
}

/// One full honest round of the two-dimensional protocol: fill a random
/// `code_len x msg_len` array, encode it along its first axis, reduce it
/// with fresh random coefficients, commit to it in a Merkle tree, and run
/// `test_no` spot-check queries at fresh random coordinates.  Returns true
/// exactly when the sizes are compatible: a misconfiguration is detected at
/// generation time and the round aborts before any work, and every check of
/// an honest round passes.
#[verifier::rlimit(100)]
#[verifier::spinoff_prover]
pub fn commit_2_dim<F: Field>(
    coef_no: usize,
    msg_len: usize,
    code_len: usize,
    seed: u64,
    test_no: usize,
    cs: CodeSpec,
) -> (all_ok: bool)
    requires
        cs.wf(),
        1 <= msg_len < 0x10000,
        code_len <= 0x2000_0000,
        code_len * msg_len <= usize::MAX,
    ensures
        all_ok == (sizes_ok(msg_len as nat, cs) && code_len == target_len(msg_len as nat, cs)),
{
    let ghost p = F::modulus();
    proof {
        F::lemma_modulus();
    }
    // both sides regenerate the same code from the seed; incompatible sizes
    // are detected here and commit nothing
    let chain = generate::<F>(msg_len, seed, cs);
    let (precodes, postcodes) = match chain {
        Some(c) => c,
        None => {
            return false;
        },
    };
    proof {
        lemma_generated_chain_wf(
            precodes@,
            postcodes@,
            msg_len as nat,
            seed,
            cs,
        );
        crate::codegen::lemma_target_ge(msg_len as nat, cs);
        crate::codegen::lemma_target_fits(msg_len as nat, cs);
    }
    let clen = crate::encode::codeword_length(&precodes, &postcodes);
    if clen != code_len {
        return false;
    }
    // the committed data: a random coefficient array, encoded along axis 0
    let mut m0: Tensor2<F> = Tensor2::zero(code_len, msg_len);
    let mut fi: usize = 0;
    while fi < code_len
        invariant
            fi <= code_len,
            m0.wf(),
            m0.d1 == code_len,
            m0.d2 == msg_len,
        decreases code_len - fi,
    {
        let mut fj: usize = 0;
        while fj < msg_len
            invariant
                fj <= msg_len,
                fi < code_len,
                m0.wf(),
                m0.d1 == code_len,
                m0.d2 == msg_len,
            decreases msg_len - fj,
        {
            m0.set(fi, fj, F::from_word(random_word()));
            fj = fj + 1;
        }
        fi = fi + 1;
    }
    encode_axis0_2d(&mut m0, &precodes, &postcodes);
    // the reduction to one row, with fresh random coefficients
    let r1 = random_coeffs_from_length::<F>(msg_len);
    let m1 = linear_combination_2_1(msg_len, code_len, &m0, &r1);
    // commit to the encoded array
    let hashes_m0 = merkle_tree_commit_2d(msg_len, code_len, &m0);
    let np2v = next_pow_2(code_len);
    let root = copy_hash(&hashes_m0, 0);
    let mut m0_map = PartialTree::new(root, hashes_m0.len());
    proof {
        assert(views_of(hashes_m0@)[0] == hashes_m0@[0]@);
        assert(map_agrees(m0_map@, views_of(hashes_m0@)));
    }
    // the spot checks
    let ghost t = views_of(hashes_m0@);
    let mut q: usize = 0;
    while q < test_no
        invariant
            q <= test_no,
            p == F::modulus(),
            p > 1,
            chain_wf(precodes@, postcodes@),
            precodes@[0].cols == msg_len,
            codeword_len_spec(precodes@, postcodes@) == code_len,
            1 <= msg_len <= code_len <= 0x2000_0000,
            m0.wf(),
            m0.d1 == code_len,
            m0.d2 == msg_len,
            encoded_cols2(m0, precodes@, postcodes@, p),
            r1@.len() == msg_len,
            all_inv(r1@),
            m1@.len() == msg_len,
            all_inv(m1@),
            forall|i: int|
                0 <= i < msg_len ==> (#[trigger] m1@[i]).val() == lc2_at(m0, vals_of(r1@), i, p),
            np2v == np2(code_len as nat),
            code_len <= np2v <= 0x4000_0000,
            t == views_of(hashes_m0@),
            hashes_m0@.len() == 2 * np2v - 1,
            tree_linked(t),
            forall|i1: int|
                0 <= i1 < code_len ==> (#[trigger] hashes_m0@[np2v - 1 + i1])@ == crate::hash::digest_of(
                    reprs_cat(row2_vals(m0, i1), F::repr_len()),
                ),
            m0_map.size() == hashes_m0@.len(),
            map_agrees(m0_map@, t),
            m0_map@.contains_key(0),
        decreases test_no - q,
    {
        let i1 = sample_index(code_len);
        // the code consistency check
        let ok1 = check_linear_combination_2_1(
            msg_len,
            code_len,
            &m0,
            &m1,
            &r1,
            &precodes,
            &postcodes,
            i1,
        );
        proof {
            lemma_lc2_complete(precodes@, postcodes@, m0, vals_of(r1@), vals_of(m1@), p);
            assert(vals_of(m1@) =~= Seq::new(msg_len as nat, |i: int| m1@[i].val()));
        }
        if !ok1 {
            proof {
                assert(codeword_spec(precodes@, postcodes@, vals_of(m1@), p)[i1 as int] == lc2_at(
                    m0,
                    vals_of(r1@),
                    i1 as int,
                    p,
                ));
                assert(false);
            }
            return false;
        }
        // the Merkle path check for the opened row
        let leaf = leaf_hash_2d(&m0, i1);
        let idx = np2v - 1 + i1;
        proof {
            assert(t[idx as int] == hashes_m0@[np2v - 1 + i1 as int]@);
            assert(leaf@ == t[idx as int]);
            lemma_climb_complete(t, idx as int, m0_map@);
        }
        let ok2 = check_merkle_path(leaf, idx, &mut m0_map, &hashes_m0);
        if !ok2 {
            proof {
                assert(false);
            }
            return false;
        }
        q = q + 1;
    }
    true
}

/// A copy of one hash out of a tree.
fn copy_hash(hashes: &Vec<Vec<u8>>, i: usize) -> (r: Vec<u8>)
    requires
        i < hashes@.len(),
    ensures
        r@ == hashes@[i as int]@,
{
    let h = &hashes[i];
    let mut r: Vec<u8> = Vec::new();
    let mut t: usize = 0;
    let n = h.len();
    while t < n
        invariant
            t <= n,
            n == h@.len(),
            h@ == hashes@[i as int]@,
            r@ =~= h@.subrange(0, t as int),
        decreases n - t,
    {
        r.push(h[t]);
        t = t + 1;
    }
    proof {
        assert(r@ =~= h@);
    }
    r
}

/// The random linear combination of the first `j` last-axis entries at
/// `(i1, i2)` of a three-dimensional array.
pub open spec fn lc3_prefix<F: Field>(
    m: Tensor3<F>,
    r: Seq<nat>,
    i1: int,
    i2: int,
    j: int,
    p: nat,
) -> nat
    decreases j,
{
    if j <= 0 {
        0
    } else {
        (lc3_prefix(m, r, i1, i2, j - 1, p) + r[j - 1] * m.at(i1, i2, j - 1)) % p
    }
}

/// The random linear combination of the fiber at `(i1, i2)`.
pub open spec fn lc3_at<F: Field>(m: Tensor3<F>, r: Seq<nat>, i1: int, i2: int, p: nat) -> nat {
    lc3_prefix(m, r, i1, i2, r.len() as int, p)
}

/// Residues along the first axis at `(i2, i3)` fixed.
pub open spec fn col3_axis0<F: Field>(m: Tensor3<F>, i2: int, i3: int) -> Seq<nat> {
    Seq::new(m.d1 as nat, |i1: int| m.at(i1, i2, i3))
}

/// The first `n` residues along the first axis at `(i2, i3)` fixed.
pub open spec fn col3_axis0_prefix<F: Field>(m: Tensor3<F>, i2: int, i3: int, n: int) -> Seq<nat> {
    Seq::new(n as nat, |i1: int| m.at(i1, i2, i3))
}

/// Residues along the second axis at `(i1, i3)` fixed.
pub open spec fn col3_axis1<F: Field>(m: Tensor3<F>, i1: int, i3: int) -> Seq<nat> {
    Seq::new(m.d2 as nat, |i2: int| m.at(i1, i2, i3))
}

/// The first `n` residues along the second axis at `(i1, i3)` fixed.
pub open spec fn col3_axis1_prefix<F: Field>(m: Tensor3<F>, i1: int, i3: int, n: int) -> Seq<nat> {
    Seq::new(n as nat, |i2: int| m.at(i1, i2, i3))
}

/// Every first-axis fiber with `i2` below `lim` is the codeword of its own
/// message prefix.
pub open spec fn encoded_axis0_3<F: Field>(
    m: Tensor3<F>,
    pre: Seq<SparseMatrix<F>>,
    post: Seq<SparseMatrix<F>>,
    lim: int,
    p: nat,
) -> bool {
    forall|i2: int, i3: int|
        0 <= i2 < lim && 0 <= i3 < m.d3 ==> #[trigger] col3_axis0(m, i2, i3) == codeword_spec(
            pre,
            post,
            col3_axis0_prefix(m, i2, i3, pre[0].cols as int),
            p,
        )
}

/// Every second-axis fiber is the codeword of its own message prefix.
pub open spec fn encoded_axis1_3<F: Field>(
    m: Tensor3<F>,
    pre: Seq<SparseMatrix<F>>,
    post: Seq<SparseMatrix<F>>,
    p: nat,
) -> bool {
    forall|i1: int, i3: int|
        0 <= i1 < m.d1 && 0 <= i3 < m.d3 ==> #[trigger] col3_axis1(m, i1, i3) == codeword_spec(
            pre,
            post,
            col3_axis1_prefix(m, i1, i3, pre[0].cols as int),
            p,
        )
}

/// Encode a three-dimensional array along its first axis: for every `i2`
/// below `lim` and every `i3`, the first-axis fiber becomes the codeword of
/// its own message prefix.
#[verifier::rlimit(100)]
#[verifier::spinoff_prover]
pub fn encode_axis0_3d<F: Field>(
    m: &mut Tensor3<F>,
    lim: usize,
    precodes: &Vec<SparseMatrix<F>>,
    postcodes: &Vec<SparseMatrix<F>>,
)
    requires
        chain_wf(precodes@, postcodes@),
        old(m).wf(),
        old(m).d1 == codeword_len_spec(precodes@, postcodes@),
        precodes@[0].cols <= old(m).d1,
        lim <= old(m).d2,
    ensures
        final (m).wf(),
        final (m).d1 == old(m).d1,
        final (m).d2 == old(m).d2,
        final (m).d3 == old(m).d3,
        encoded_axis0_3(*final (m), precodes@, postcodes@, lim as int, F::modulus()),
{
    let ghost p = F::modulus();
    proof {
        F::lemma_modulus();
    }
    let code_len = m.d1;
    let d2 = m.d2;
    let d3 = m.d3;
    let mut i3: usize = 0;
    while i3 < d3
        invariant
            i3 <= d3,
            chain_wf(precodes@, postcodes@),
            p == F::modulus(),
            p > 1,
            m.wf(),
            m.d1 == code_len,
            m.d2 == d2,
            m.d3 == d3,
            lim <= d2,
            code_len == codeword_len_spec(precodes@, postcodes@),
            precodes@[0].cols <= code_len,
            forall|j2: int, j3: int|
                0 <= j2 < lim && 0 <= j3 < i3 ==> #[trigger] col3_axis0(*m, j2, j3)
                    == codeword_spec(
                    precodes@,
                    postcodes@,
                    col3_axis0_prefix(*m, j2, j3, precodes@[0].cols as int),
                    p,
                ),
        decreases d3 - i3,
    {
        let mut i2: usize = 0;
        while i2 < lim
            invariant
                i2 <= lim,
                i3 < d3,
                chain_wf(precodes@, postcodes@),
                p == F::modulus(),
                p > 1,
                m.wf(),
                m.d1 == code_len,
                m.d2 == d2,
                m.d3 == d3,
                lim <= d2,
                code_len == codeword_len_spec(precodes@, postcodes@),
                precodes@[0].cols <= code_len,
                forall|j2: int, j3: int|
                    0 <= j2 < lim && 0 <= j3 < i3 ==> #[trigger] col3_axis0(*m, j2, j3)
                        == codeword_spec(
                        precodes@,
                        postcodes@,
                        col3_axis0_prefix(*m, j2, j3, precodes@[0].cols as int),
                        p,
                    ),
                forall|j2: int|
                    0 <= j2 < i2 ==> #[trigger] col3_axis0(*m, j2, i3 as int) == codeword_spec(
                        precodes@,
                        postcodes@,
                        col3_axis0_prefix(*m, j2, i3 as int, precodes@[0].cols as int),
                        p,
                    ),
            decreases lim - i2,
        {
            let mut col: Vec<F> = Vec::new();
            let mut i1: usize = 0;
            while i1 < code_len
                invariant
                    i1 <= code_len,
                    m.wf(),
                    m.d1 == code_len,
                    m.d2 == d2,
                    m.d3 == d3,
                    i2 < lim,
                    lim <= d2,
                    i3 < d3,
                    col@.len() == i1,
                    all_inv(col@),
                    forall|t: int|
                        0 <= t < i1 ==> (#[trigger] col@[t]).val() == m.at(t, i2 as int, i3 as int),
                decreases code_len - i1,
            {
                col.push(m.get(i1, i2, i3));
                i1 = i1 + 1;
            }
            proof {
                assert(vals_of(col@) =~= col3_axis0(*m, i2 as int, i3 as int));
            }
            let ghost col_before = col@;
            let ghost m_before = *m;
            encode(&mut col, precodes, postcodes);
            proof {
                assert(vals_window(col_before, 0, precodes@[0].cols as int) =~= col3_axis0_prefix(
                    m_before,
                    i2 as int,
                    i3 as int,
                    precodes@[0].cols as int,
                ));
            }
            let mut i1b: usize = 0;
            while i1b < code_len
                invariant
                    i1b <= code_len,
                    m.wf(),
                    m.d1 == code_len,
                    m.d2 == d2,
                    m.d3 == d3,
                    i2 < lim,
                    lim <= d2,
                    i3 < d3,
                    col@.len() == code_len,
                    all_inv(col@),
                    forall|j1: int, j2: int, j3: int|
                        0 <= j1 < code_len && 0 <= j2 < d2 && 0 <= j3 < d3 && !(j2 == i2 && j3
                            == i3) ==> #[trigger] m.at(j1, j2, j3) == m_before.at(j1, j2, j3),
                    forall|j1: int|
                        0 <= j1 < i1b ==> #[trigger] m.at(j1, i2 as int, i3 as int)
                            == col@[j1].val(),
                    forall|j1: int|
                        i1b <= j1 < code_len ==> #[trigger] m.at(j1, i2 as int, i3 as int)
                            == m_before.at(j1, i2 as int, i3 as int),
                decreases code_len - i1b,
            {
                m.set(i1b, i2, i3, col[i1b]);
                i1b = i1b + 1;
            }
            proof {
                let l0 = precodes@[0].cols as int;
                assert(col3_axis0(*m, i2 as int, i3 as int) =~= vals_of(col@));
                crate::encode::lemma_codeword_spec_len(
                    precodes@,
                    postcodes@,
                    vals_window(col_before, 0, l0),
                    p,
                );
                assert forall|j1: int| 0 <= j1 < l0 implies #[trigger] m.at(j1, i2 as int, i3 as int)
                    == col3_axis0_prefix(m_before, i2 as int, i3 as int, l0)[j1] by {
                    assert(m.at(j1, i2 as int, i3 as int) == col@[j1].val());
                    assert(vals_of(col@)[j1] == codeword_spec(
                        precodes@,
                        postcodes@,
                        vals_window(col_before, 0, l0),
                        p,
                    )[j1]);
                    assert(codeword_spec(
                        precodes@,
                        postcodes@,
                        vals_window(col_before, 0, l0),
                        p,
                    )[j1] == vals_window(col_before, 0, l0)[j1]);
                }
                assert(col3_axis0_prefix(*m, i2 as int, i3 as int, l0) =~= col3_axis0_prefix(
                    m_before,
                    i2 as int,
                    i3 as int,
                    l0,
                ));
                assert(col3_axis0(*m, i2 as int, i3 as int) == codeword_spec(
                    precodes@,
                    postcodes@,
                    col3_axis0_prefix(*m, i2 as int, i3 as int, l0),
                    p,
                ));
                assert forall|j2: int, j3: int|
                    0 <= j2 < lim && 0 <= j3 < i3 implies #[trigger] col3_axis0(*m, j2, j3)
                    == codeword_spec(
                    precodes@,
                    postcodes@,
                    col3_axis0_prefix(*m, j2, j3, l0),
                    p,
                ) by {
                    assert(col3_axis0(*m, j2, j3) =~= col3_axis0(m_before, j2, j3));
                    assert(col3_axis0_prefix(*m, j2, j3, l0) =~= col3_axis0_prefix(
                        m_before,
                        j2,
                        j3,
                        l0,
                    ));
                }
                assert forall|j2: int|
                    0 <= j2 < i2 implies #[trigger] col3_axis0(*m, j2, i3 as int)
                    == codeword_spec(
                    precodes@,
                    postcodes@,
                    col3_axis0_prefix(*m, j2, i3 as int, l0),
                    p,
                ) by {
                    assert(col3_axis0(*m, j2, i3 as int) =~= col3_axis0(m_before, j2, i3 as int));
                    assert(col3_axis0_prefix(*m, j2, i3 as int, l0) =~= col3_axis0_prefix(
                        m_before,
                        j2,
                        i3 as int,
                        l0,
                    ));
                }
            }
            i2 = i2 + 1;
        }
        i3 = i3 + 1;
        proof {
            assert forall|j2: int, j3: int|
                0 <= j2 < lim && 0 <= j3 < i3 implies #[trigger] col3_axis0(*m, j2, j3)
                == codeword_spec(
                precodes@,
                postcodes@,
                col3_axis0_prefix(*m, j2, j3, precodes@[0].cols as int),
                p,
            ) by {
                if j3 == i3 - 1 {
                    assert(col3_axis0(*m, j2, i3 - 1) == codeword_spec(
                        precodes@,
                        postcodes@,
                        col3_axis0_prefix(*m, j2, i3 - 1, precodes@[0].cols as int),
                        p,
                    ));
                }
            }
        }
    }
}

/// Encode a three-dimensional array along its second axis: every
/// second-axis fiber becomes the codeword of its own message prefix, and
/// entries with `i2` below the message length keep their values (the code
/// is systematic).
#[verifier::rlimit(100)]
#[verifier::spinoff_prover]
pub fn encode_axis1_3d<F: Field>(
    m: &mut Tensor3<F>,
    precodes: &Vec<SparseMatrix<F>>,
    postcodes: &Vec<SparseMatrix<F>>,
)
    requires
        chain_wf(precodes@, postcodes@),
        old(m).wf(),
        old(m).d2 == codeword_len_spec(precodes@, postcodes@),
        precodes@[0].cols <= old(m).d2,
    ensures
        final (m).wf(),
        final (m).d1 == old(m).d1,
        final (m).d2 == old(m).d2,
        final (m).d3 == old(m).d3,
        encoded_axis1_3(*final (m), precodes@, postcodes@, F::modulus()),
        forall|j1: int, j2: int, j3: int|
            0 <= j1 < old(m).d1 && 0 <= j2 < precodes@[0].cols && 0 <= j3 < old(m).d3
                ==> #[trigger] final (m).at(j1, j2, j3) == old(m).at(j1, j2, j3),
{
    let ghost p = F::modulus();
    proof {
        F::lemma_modulus();
    }
    let d1 = m.d1;
    let code_len = m.d2;
    let d3 = m.d3;
    let ghost m_orig = *m;
    let mut i3: usize = 0;
    while i3 < d3
        invariant
            i3 <= d3,
            chain_wf(precodes@, postcodes@),
            p == F::modulus(),
            p > 1,
            m.wf(),
            m.d1 == d1,
            m.d2 == code_len,
            m.d3 == d3,
            code_len == codeword_len_spec(precodes@, postcodes@),
            precodes@[0].cols <= code_len,
            forall|j1: int, j2: int, j3: int|
                0 <= j1 < d1 && 0 <= j2 < precodes@[0].cols && 0 <= j3 < d3
                    ==> #[trigger] m.at(j1, j2, j3) == m_orig.at(j1, j2, j3),
            forall|j1: int, j3: int|
                0 <= j1 < d1 && 0 <= j3 < i3 ==> #[trigger] col3_axis1(*m, j1, j3)
                    == codeword_spec(
                    precodes@,
                    postcodes@,
                    col3_axis1_prefix(*m, j1, j3, precodes@[0].cols as int),
                    p,
                ),
        decreases d3 - i3,
    {
        let mut i1: usize = 0;
        while i1 < d1
            invariant
                i1 <= d1,
                i3 < d3,
                chain_wf(precodes@, postcodes@),
                p == F::modulus(),
                p > 1,
                m.wf(),
                m.d1 == d1,
                m.d2 == code_len,
                m.d3 == d3,
                code_len == codeword_len_spec(precodes@, postcodes@),
                precodes@[0].cols <= code_len,
                forall|j1: int, j2: int, j3: int|
                    0 <= j1 < d1 && 0 <= j2 < precodes@[0].cols && 0 <= j3 < d3
                        ==> #[trigger] m.at(j1, j2, j3) == m_orig.at(j1, j2, j3),
                forall|j1: int, j3: int|
                    0 <= j1 < d1 && 0 <= j3 < i3 ==> #[trigger] col3_axis1(*m, j1, j3)
                        == codeword_spec(
                        precodes@,
                        postcodes@,
                        col3_axis1_prefix(*m, j1, j3, precodes@[0].cols as int),
                        p,
                    ),
                forall|j1: int|
                    0 <= j1 < i1 ==> #[trigger] col3_axis1(*m, j1, i3 as int) == codeword_spec(
                        precodes@,
                        postcodes@,
                        col3_axis1_prefix(*m, j1, i3 as int, precodes@[0].cols as int),
                        p,
                    ),
            decreases d1 - i1,
        {
            let mut fib: Vec<F> = Vec::new();
            let mut i2: usize = 0;
            while i2 < code_len
                invariant
                    i2 <= code_len,
                    m.wf(),
                    m.d1 == d1,
                    m.d2 == code_len,
                    m.d3 == d3,
                    i1 < d1,
                    i3 < d3,
                    fib@.len() == i2,
                    all_inv(fib@),
                    forall|t: int|
                        0 <= t < i2 ==> (#[trigger] fib@[t]).val() == m.at(i1 as int, t, i3 as int),
                decreases code_len - i2,
            {
                fib.push(m.get(i1, i2, i3));
                i2 = i2 + 1;
            }
            proof {
                assert(vals_of(fib@) =~= col3_axis1(*m, i1 as int, i3 as int));
            }
            let ghost fib_before = fib@;
            let ghost m_before = *m;
            encode(&mut fib, precodes, postcodes);
            proof {
                assert(vals_window(fib_before, 0, precodes@[0].cols as int) =~= col3_axis1_prefix(
                    m_before,
                    i1 as int,
                    i3 as int,
                    precodes@[0].cols as int,
                ));
            }
            let mut i2b: usize = 0;
            while i2b < code_len
                invariant
                    i2b <= code_len,
                    m.wf(),
                    m.d1 == d1,
                    m.d2 == code_len,
                    m.d3 == d3,
                    i1 < d1,
                    i3 < d3,
                    fib@.len() == code_len,
                    all_inv(fib@),
                    vals_of(fib@) == codeword_spec(
                        precodes@,
                        postcodes@,
                        vals_window(fib_before, 0, precodes@[0].cols as int),
                        p,
                    ),
                    forall|j1: int, j2: int, j3: int|
                        0 <= j1 < d1 && 0 <= j2 < code_len && 0 <= j3 < d3 && !(j1 == i1 && j3
                            == i3) ==> #[trigger] m.at(j1, j2, j3) == m_before.at(j1, j2, j3),
                    forall|j2: int|
                        0 <= j2 < i2b ==> #[trigger] m.at(i1 as int, j2, i3 as int)
                            == fib@[j2].val(),
                    forall|j2: int|
                        i2b <= j2 < code_len ==> #[trigger] m.at(i1 as int, j2, i3 as int)
                            == m_before.at(i1 as int, j2, i3 as int),
                decreases code_len - i2b,
            {
                m.set(i1, i2b, i3, fib[i2b]);
                i2b = i2b + 1;
            }
            proof {
                let l0 = precodes@[0].cols as int;
                assert(col3_axis1(*m, i1 as int, i3 as int) =~= vals_of(fib@));
                crate::encode::lemma_codeword_spec_len(
                    precodes@,
                    postcodes@,
                    vals_window(fib_before, 0, l0),
                    p,
                );
                assert forall|j2: int| 0 <= j2 < l0 implies #[trigger] m.at(
                    i1 as int,
                    j2,
                    i3 as int,
                ) == m_before.at(i1 as int, j2, i3 as int) by {
                    assert(m.at(i1 as int, j2, i3 as int) == vals_of(fib@)[j2]);
                    assert(vals_of(fib@)[j2] == codeword_spec(
                        precodes@,
                        postcodes@,
                        vals_window(fib_before, 0, l0),
                        p,
                    )[j2]);
                    assert(codeword_spec(
                        precodes@,
                        postcodes@,
                        vals_window(fib_before, 0, l0),
                        p,
                    )[j2] == vals_window(fib_before, 0, l0)[j2]);
                    assert(vals_window(fib_before, 0, l0)[j2] == fib_before[j2].val());
                    assert(fib_before[j2].val() == m_before.at(i1 as int, j2, i3 as int));
                }
                assert(col3_axis1_prefix(*m, i1 as int, i3 as int, l0) =~= col3_axis1_prefix(
                    m_before,
                    i1 as int,
                    i3 as int,
                    l0,
                ));
                assert(col3_axis1(*m, i1 as int, i3 as int) == codeword_spec(
                    precodes@,
                    postcodes@,
                    col3_axis1_prefix(*m, i1 as int, i3 as int, l0),
                    p,
                ));
                // untouched fibers and the preserved message block
                assert forall|j1: int, j2: int, j3: int|
                    0 <= j1 < d1 && 0 <= j2 < l0 && 0 <= j3 < d3 implies #[trigger] m.at(
                    j1,
                    j2,
                    j3,
                ) == m_orig.at(j1, j2, j3) by {
                    if !(j1 == i1 && j3 == i3) {
                        assert(m.at(j1, j2, j3) == m_before.at(j1, j2, j3));
                    }
                }
                assert forall|j1: int, j3: int|
                    0 <= j1 < d1 && 0 <= j3 < i3 implies #[trigger] col3_axis1(*m, j1, j3)
                    == codeword_spec(
                    precodes@,
                    postcodes@,
                    col3_axis1_prefix(*m, j1, j3, l0),
                    p,
                ) by {
                    assert(col3_axis1(*m, j1, j3) =~= col3_axis1(m_before, j1, j3));
                    assert(col3_axis1_prefix(*m, j1, j3, l0) =~= col3_axis1_prefix(
                        m_before,
                        j1,
                        j3,
                        l0,
                    ));
                }
                assert forall|j1: int|
                    0 <= j1 < i1 implies #[trigger] col3_axis1(*m, j1, i3 as int)
                    == codeword_spec(
                    precodes@,
                    postcodes@,
                    col3_axis1_prefix(*m, j1, i3 as int, l0),
                    p,
                ) by {
                    assert(col3_axis1(*m, j1, i3 as int) =~= col3_axis1(m_before, j1, i3 as int));
                    assert(col3_axis1_prefix(*m, j1, i3 as int, l0) =~= col3_axis1_prefix(
                        m_before,
                        j1,
                        i3 as int,
                        l0,
                    ));
                }
            }
            i1 = i1 + 1;
        }
        i3 = i3 + 1;
        proof {
            assert forall|j1: int, j3: int|
                0 <= j1 < d1 && 0 <= j3 < i3 implies #[trigger] col3_axis1(*m, j1, j3)
                == codeword_spec(
                precodes@,
                postcodes@,
                col3_axis1_prefix(*m, j1, j3, precodes@[0].cols as int),
                p,
            ) by {
                if j3 == i3 - 1 {
                    assert(col3_axis1(*m, j1, i3 - 1) == codeword_spec(
                        precodes@,
                        postcodes@,
                        col3_axis1_prefix(*m, j1, i3 - 1, precodes@[0].cols as int),
                        p,
                    ));
                }
            }
        }
    }
}

/// The `r`-combination of one last-axis fiber of a three-dimensional array.
pub(crate) fn lc3_fiber<F: Field>(msg_len: usize, m_3d: &Tensor3<F>, r: &Vec<F>, i1: usize, i2: usize) -> (s:
    F)
    requires
        m_3d.wf(),
        m_3d.d3 == msg_len,
        i1 < m_3d.d1,
        i2 < m_3d.d2,
        r@.len() == msg_len,
        all_inv(r@),
    ensures
        s.inv(),
        s.val() == lc3_at(*m_3d, vals_of(r@), i1 as int, i2 as int, F::modulus()),
{
    let ghost p = F::modulus();
    let ghost rv = vals_of(r@);
    proof {
        F::lemma_modulus();
    }
    let mut s = F::zero();
    let mut i3: usize = 0;
    while i3 < msg_len
        invariant
            i3 <= msg_len,
            m_3d.wf(),
            m_3d.d3 == msg_len,
            i1 < m_3d.d1,
            i2 < m_3d.d2,
            r@.len() == msg_len,
            all_inv(r@),
            p == F::modulus(),
            p > 1,
            rv == vals_of(r@),
            s.inv(),
            s.val() == lc3_prefix(*m_3d, rv, i1 as int, i2 as int, i3 as int, p),
        decreases msg_len - i3,
    {
        let t = r[i3].mul(m_3d.get(i1, i2, i3));
        proof {
            lemma_add_mod_noop_right(
                s.val() as int,
                (r@[i3 as int].val() * m_3d.at(i1 as int, i2 as int, i3 as int)) as int,
                p as int,
            );
            assert(rv[i3 as int] == r@[i3 as int].val());
        }
        s = s.add(t);
        i3 = i3 + 1;
    }
    s
}

/// Reduce the committed three-dimensional array along its last axis: entry
/// `(i1, i2)` of the result is the `r`-combination of the fiber there, for
/// the first `msg_len` values of `i2`.
pub fn linear_combination_3_2<F: Field>(
    msg_len: usize,
    code_len: usize,
    m_3d: &Tensor3<F>,
    r: &Vec<F>,
) -> (res: Tensor2<F>)
    requires
        m_3d.wf(),
        m_3d.d1 == code_len,
        m_3d.d2 == code_len,
        m_3d.d3 == msg_len,
        msg_len <= code_len,
        r@.len() == msg_len,
        all_inv(r@),
    ensures
        res.wf(),
        res.d1 == code_len,
        res.d2 == msg_len,
        forall|i1: int, i2: int|
            0 <= i1 < code_len && 0 <= i2 < msg_len ==> #[trigger] res.at(i1, i2) == lc3_at(
                *m_3d,
                vals_of(r@),
                i1,
                i2,
                F::modulus(),
            ),
{
    let ghost p = F::modulus();
    let ghost rv = vals_of(r@);
    proof {
        F::lemma_modulus();
        assert(code_len * msg_len <= m_3d.d1 * m_3d.d2) by (nonlinear_arith)
            requires
                code_len == m_3d.d1,
                msg_len <= m_3d.d2,
                code_len >= 0,
        ;
        assert(m_3d.d1 * m_3d.d2 <= usize::MAX);
    }
    let mut res: Tensor2<F> = Tensor2::zero(code_len, msg_len);
    let mut i1: usize = 0;
    while i1 < code_len
        invariant
            i1 <= code_len,
            m_3d.wf(),
            m_3d.d1 == code_len,
            m_3d.d2 == code_len,
            m_3d.d3 == msg_len,
            msg_len <= code_len,
            r@.len() == msg_len,
            all_inv(r@),
            p == F::modulus(),
            p > 1,
            rv == vals_of(r@),
            res.wf(),
            res.d1 == code_len,
            res.d2 == msg_len,
            forall|j1: int, j2: int|
                0 <= j1 < i1 && 0 <= j2 < msg_len ==> #[trigger] res.at(j1, j2) == lc3_at(
                    *m_3d,
                    rv,
                    j1,
                    j2,
                    p,
                ),
        decreases code_len - i1,
    {
        let mut i2: usize = 0;
        while i2 < msg_len
            invariant
                i2 <= msg_len,
                i1 < code_len,
                m_3d.wf(),
                m_3d.d1 == code_len,
                m_3d.d2 == code_len,
                m_3d.d3 == msg_len,
                msg_len <= code_len,
                r@.len() == msg_len,
                all_inv(r@),
                p == F::modulus(),
                p > 1,
                rv == vals_of(r@),
                res.wf(),
                res.d1 == code_len,
                res.d2 == msg_len,
                forall|j1: int, j2: int|
                    0 <= j1 < i1 && 0 <= j2 < msg_len ==> #[trigger] res.at(j1, j2) == lc3_at(
                        *m_3d,
                        rv,
                        j1,
                        j2,
                        p,
                    ),
                forall|j2: int|
                    0 <= j2 < i2 ==> #[trigger] res.at(i1 as int, j2) == lc3_at(
                        *m_3d,
                        rv,
                        i1 as int,
                        j2,
                        p,
                    ),
            decreases msg_len - i2,
        {
            let s = lc3_fiber(msg_len, m_3d, r, i1, i2);
            res.set(i1, i2, s);
            i2 = i2 + 1;
        }
        i1 = i1 + 1;
    }
    res
}

/// The verifier's consistency check between the three- and two-dimensional
/// reduction levels, at the sampled coordinates `(i1, i2)`.
pub fn check_linear_combination_3_2<F: Field>(
    msg_len: usize,
    code_len: usize,
    m_3d: &Tensor3<F>,
    m_2d: &Tensor2<F>,
    r: &Vec<F>,
    precodes: &Vec<SparseMatrix<F>>,
    postcodes: &Vec<SparseMatrix<F>>,
    i1: usize,
    i2: usize,
) -> (ok: bool)
    requires
        chain_wf(precodes@, postcodes@),
        precodes@[0].cols == msg_len,
        codeword_len_spec(precodes@, postcodes@) == code_len,
        m_3d.wf(),
        m_3d.d1 == code_len,
        m_3d.d2 == code_len,
        m_3d.d3 == msg_len,
        m_2d.wf(),
        m_2d.d1 == code_len,
        m_2d.d2 == msg_len,
        msg_len <= code_len,
        r@.len() == msg_len,
        all_inv(r@),
        i1 < code_len,
        i2 < code_len,
    ensures
        ok == (codeword_spec(precodes@, postcodes@, row2_vals(*m_2d, i1 as int), F::modulus())[
        i2 as int] == lc3_at(*m_3d, vals_of(r@), i1 as int, i2 as int, F::modulus())),
{
    let ghost p = F::modulus();
    proof {
        F::lemma_modulus();
        crate::encode::lemma_codeword_len_agree(
            precodes@,
            postcodes@,
            row2_vals(*m_2d, i1 as int),
            p,
        );
    }
    let mut msg: Vec<F> = Vec::new();
    let mut t: usize = 0;
    while t < msg_len
        invariant
            t <= msg_len,
            m_2d.wf(),
            m_2d.d1 == code_len,
            m_2d.d2 == msg_len,
            i1 < code_len,
            msg@.len() == t,
            all_inv(msg@),
            forall|j: int| 0 <= j < t ==> (#[trigger] msg@[j]).val() == m_2d.at(i1 as int, j),
        decreases msg_len - t,
    {
        msg.push(m_2d.get(i1, t));
        t = t + 1;
    }
    let z = F::zero();
    while msg.len() < code_len
        invariant
            msg_len <= msg@.len() <= code_len,
            m_2d.wf(),
            m_2d.d1 == code_len,
            m_2d.d2 == msg_len,
            i1 < code_len,
            all_inv(msg@),
            z.inv(),
            forall|j: int|
                0 <= j < msg_len ==> (#[trigger] msg@[j]).val() == m_2d.at(i1 as int, j),
        decreases code_len - msg@.len(),
    {
        msg.push(z);
    }
    let ghost msg_before = msg@;
    encode(&mut msg, precodes, postcodes);
    proof {
        assert(vals_window(msg_before, 0, msg_len as int) =~= row2_vals(*m_2d, i1 as int));
    }
    let s = lc3_fiber(msg_len, m_3d, r, i1, i2);
    proof {
        assert(vals_of(msg@)[i2 as int] == msg@[i2 as int].val());
    }
    let ok = s.eq_elt(msg[i2]);
    ok
}

/// The combination over whole second-axis fibers equals the fiber
/// combination, pointwise.
proof fn lemma_combo_is_lc3_row<F: Field>(
    ws_list: Seq<Seq<nat>>,
    m: Tensor3<F>,
    rv: Seq<nat>,
    i1: int,
    i2: int,
    j: int,
    p: nat,
)
    requires
        ws_list.len() == rv.len(),
        0 <= i2 < m.d2,
        0 <= j <= rv.len(),
        forall|t: int| 0 <= t < rv.len() ==> #[trigger] ws_list[t] == col3_axis1(m, i1, t),
    ensures
        combo_prefix(ws_list, rv, i2, j, p) == lc3_prefix(m, rv, i1, i2, j, p),
    decreases j,
{
    if j > 0 {
        lemma_combo_is_lc3_row(ws_list, m, rv, i1, i2, j - 1, p);
        assert(ws_list[j - 1][i2] == m.at(i1, i2, j - 1));
    }
}

/// The combination over prefixes of second-axis fibers equals the fiber
/// combination on the message block.
proof fn lemma_combo_is_lc3_row_prefix<F: Field>(
    xs_list: Seq<Seq<nat>>,
    m: Tensor3<F>,
    rv: Seq<nat>,
    i1: int,
    i2: int,
    j: int,
    p: nat,
    l0: int,
)
    requires
        xs_list.len() == rv.len(),
        0 <= i2 < l0,
        0 <= j <= rv.len(),
        forall|t: int|
            0 <= t < rv.len() ==> #[trigger] xs_list[t] == col3_axis1_prefix(m, i1, t, l0),
    ensures
        combo_prefix(xs_list, rv, i2, j, p) == lc3_prefix(m, rv, i1, i2, j, p),
    decreases j,
{
    if j > 0 {
        lemma_combo_is_lc3_row_prefix(xs_list, m, rv, i1, i2, j - 1, p, l0);
        assert(xs_list[j - 1][i2] == m.at(i1, i2, j - 1));
    }
}

/// For an array whose second-axis fibers are codewords, the reduced row is
/// consistent with the code at every coordinate.
pub proof fn lemma_lc3_complete<F: Field>(
    pre: Seq<SparseMatrix<F>>,
    post: Seq<SparseMatrix<F>>,
    m0: Tensor3<F>,
    m1: Tensor2<F>,
    rv: Seq<nat>,
    i1: int,
    p: nat,
)
    requires
        p > 1,
        chain_wf(pre, post),
        m0.wf(),
        m0.d2 == codeword_len_spec(pre, post),
        m0.d3 == rv.len(),
        rv.len() == pre[0].cols,
        encoded_axis1_3(m0, pre, post, p),
        0 <= i1 < m0.d1,
        m1.wf(),
        m1.d1 == m0.d1,
        m1.d2 == rv.len(),
        forall|i2: int|
            0 <= i2 < m1.d2 ==> #[trigger] m1.at(i1, i2) == lc3_at(m0, rv, i1, i2, p),
    ensures
        forall|i2: int|
            0 <= i2 < m0.d2 ==> #[trigger] codeword_spec(pre, post, row2_vals(m1, i1), p)[i2]
                == lc3_at(m0, rv, i1, i2, p),
{
    let l0 = pre[0].cols as nat;
    let nn = (pre[0].cols + post[0].cols + post[0].rows) as nat;
    let xs_list = Seq::new(rv.len(), |t: int| col3_axis1_prefix(m0, i1, t, l0 as int));
    let ws_list = Seq::new(rv.len(), |t: int| col3_axis1(m0, i1, t));
    assert forall|t: int| 0 <= t < ws_list.len() implies #[trigger] ws_list[t] == codeword_spec(
        pre,
        post,
        xs_list[t],
        p,
    ) by {
        assert(col3_axis1(m0, i1, t) == codeword_spec(
            pre,
            post,
            col3_axis1_prefix(m0, i1, t, l0 as int),
            p,
        ));
    }
    lemma_codeword_combo(pre, post, xs_list, ws_list, rv, rv.len() as int, p);
    assert forall|i2: int| 0 <= i2 < l0 implies #[trigger] combo_seq(
        xs_list,
        rv,
        l0,
        rv.len() as int,
        p,
    )[i2] == row2_vals(m1, i1)[i2] by {
        lemma_combo_is_lc3_row_prefix(xs_list, m0, rv, i1, i2, rv.len() as int, p, l0 as int);
    }
    assert(combo_seq(xs_list, rv, l0, rv.len() as int, p) =~= row2_vals(m1, i1));
    crate::encode::lemma_codeword_spec_len(pre, post, row2_vals(m1, i1), p);
    crate::encode::lemma_codeword_len_agree(pre, post, row2_vals(m1, i1), p);
    assert forall|i2: int| 0 <= i2 < m0.d2 implies #[trigger] codeword_spec(
        pre,
        post,
        row2_vals(m1, i1),
        p,
    )[i2] == lc3_at(m0, rv, i1, i2, p) by {
        lemma_combo_is_lc3_row(ws_list, m0, rv, i1, i2, rv.len() as int, p);
        assert(codeword_spec(pre, post, row2_vals(m1, i1), p)[i2] == combo_seq(
            ws_list,
            rv,
            nn,
            rv.len() as int,
            p,
        )[i2]);
    }
}

/// The combination over whole first-axis fibers equals the fiber
/// combination, pointwise.
proof fn lemma_combo_is_lc3_col<F: Field>(
    ws_list: Seq<Seq<nat>>,
    m: Tensor3<F>,
    rv: Seq<nat>,
    i1: int,
    i2: int,
    j: int,
    p: nat,
)
    requires
        ws_list.len() == rv.len(),
        0 <= i1 < m.d1,
        0 <= j <= rv.len(),
        forall|t: int| 0 <= t < rv.len() ==> #[trigger] ws_list[t] == col3_axis0(m, i2, t),
    ensures
        combo_prefix(ws_list, rv, i1, j, p) == lc3_prefix(m, rv, i1, i2, j, p),
    decreases j,
{
    if j > 0 {
        lemma_combo_is_lc3_col(ws_list, m, rv, i1, i2, j - 1, p);
        assert(ws_list[j - 1][i1] == m.at(i1, i2, j - 1));
    }
}

/// The combination over prefixes of first-axis fibers equals the fiber
/// combination on the message block.
proof fn lemma_combo_is_lc3_col_prefix<F: Field>(
    xs_list: Seq<Seq<nat>>,
    m: Tensor3<F>,
    rv: Seq<nat>,
    i1: int,
    i2: int,
    j: int,
    p: nat,
    l0: int,
)
    requires
        xs_list.len() == rv.len(),
        0 <= i1 < l0,
        0 <= j <= rv.len(),
        forall|t: int|
            0 <= t < rv.len() ==> #[trigger] xs_list[t] == col3_axis0_prefix(m, i2, t, l0),
    ensures
        combo_prefix(xs_list, rv, i1, j, p) == lc3_prefix(m, rv, i1, i2, j, p),
    decreases j,
{
    if j > 0 {
        lemma_combo_is_lc3_col_prefix(xs_list, m, rv, i1, i2, j - 1, p, l0);
        assert(xs_list[j - 1][i1] == m.at(i1, i2, j - 1));
    }
}

/// The reduction of an array whose first-axis fibers are codewords has
/// codeword columns itself.
pub proof fn lemma_m1_encoded_cols2<F: Field>(
    pre: Seq<SparseMatrix<F>>,
    post: Seq<SparseMatrix<F>>,
    m0: Tensor3<F>,
    m1: Tensor2<F>,
    rv: Seq<nat>,
    p: nat,
)
    requires
        p > 1,
        chain_wf(pre, post),
        m0.wf(),
        m0.d1 == codeword_len_spec(pre, post),
        m0.d3 == rv.len(),
        encoded_axis0_3(m0, pre, post, pre[0].cols as int, p),
        m1.wf(),
        m1.d1 == m0.d1,
        m1.d2 == pre[0].cols,
        m1.d2 <= m0.d2,
        pre[0].cols <= m1.d1,
        forall|i1: int, i2: int|
            0 <= i1 < m1.d1 && 0 <= i2 < m1.d2 ==> #[trigger] m1.at(i1, i2) == lc3_at(
                m0,
                rv,
                i1,
                i2,
                p,
            ),
    ensures
        encoded_cols2(m1, pre, post, p),
{
    let l0 = pre[0].cols as nat;
    let nn = (pre[0].cols + post[0].cols + post[0].rows) as nat;
    assert forall|i2: int| 0 <= i2 < m1.d2 implies #[trigger] col2_vals(m1, i2) == codeword_spec(
        pre,
        post,
        col2_prefix(m1, i2, l0 as int),
        p,
    ) by {
        let xs_list = Seq::new(rv.len(), |t: int| col3_axis0_prefix(m0, i2, t, l0 as int));
        let ws_list = Seq::new(rv.len(), |t: int| col3_axis0(m0, i2, t));
        assert forall|t: int| 0 <= t < ws_list.len() implies #[trigger] ws_list[t]
            == codeword_spec(pre, post, xs_list[t], p) by {
            assert(col3_axis0(m0, i2, t) == codeword_spec(
                pre,
                post,
                col3_axis0_prefix(m0, i2, t, l0 as int),
                p,
            ));
        }
        lemma_codeword_combo(pre, post, xs_list, ws_list, rv, rv.len() as int, p);
        crate::encode::lemma_codeword_spec_len(pre, post, col2_prefix(m1, i2, l0 as int), p);
        crate::encode::lemma_codeword_len_agree(pre, post, col2_prefix(m1, i2, l0 as int), p);
        assert forall|i1: int| 0 <= i1 < l0 implies #[trigger] combo_seq(
            xs_list,
            rv,
            l0,
            rv.len() as int,
            p,
        )[i1] == col2_prefix(m1, i2, l0 as int)[i1] by {
            lemma_combo_is_lc3_col_prefix(
                xs_list,
                m0,
                rv,
                i1,
                i2,
                rv.len() as int,
                p,
                l0 as int,
            );
            assert(m1.at(i1, i2) == lc3_at(m0, rv, i1, i2, p));
        }
        assert(combo_seq(xs_list, rv, l0, rv.len() as int, p) =~= col2_prefix(m1, i2, l0 as int));
        assert forall|i1: int| 0 <= i1 < m1.d1 implies #[trigger] col2_vals(m1, i2)[i1]
            == combo_seq(ws_list, rv, nn, rv.len() as int, p)[i1] by {
            lemma_combo_is_lc3_col(ws_list, m0, rv, i1, i2, rv.len() as int, p);
            assert(m1.at(i1, i2) == lc3_at(m0, rv, i1, i2, p));
            assert(col2_vals(m1, i2)[i1] == m1.at(i1, i2));
        }
        assert(col2_vals(m1, i2) =~= codeword_spec(
            pre,
            post,
            col2_prefix(m1, i2, l0 as int),
            p,
        ));
    }
}

/// One full honest round of the three-dimensional protocol: a random
/// `code_len x code_len x msg_len` array is encoded along its first two
/// axes, reduced twice with fresh random coefficients, committed level by
/// level, and spot-checked at `test_no` random coordinate pairs.  Returns
/// true exactly when the sizes are compatible: a misconfiguration aborts
/// the round before any work, and every check of an honest round passes.
#[verifier::rlimit(100)]
#[verifier::spinoff_prover]
pub fn commit_3_dim<F: Field>(
    coef_no: usize,
    msg_len: usize,
    code_len: usize,
    seed: u64,
    test_no: usize,
    cs: CodeSpec,
) -> (all_ok: bool)
    requires
        cs.wf(),
        1 <= msg_len < 0x10000,
        code_len * code_len <= 0x2000_0000,
        code_len * code_len * msg_len <= usize::MAX,
    ensures
        all_ok == (sizes_ok(msg_len as nat, cs) && code_len == target_len(msg_len as nat, cs)),
{
    let ghost p = F::modulus();
    proof {
        F::lemma_modulus();
    }
    let chain = generate::<F>(msg_len, seed, cs);
    let (precodes, postcodes) = match chain {
        Some(c) => c,
        None => {
            return false;
        },
    };
    proof {
        lemma_generated_chain_wf(precodes@, postcodes@, msg_len as nat, seed, cs);
        crate::codegen::lemma_target_ge(msg_len as nat, cs);
        crate::codegen::lemma_target_fits(msg_len as nat, cs);
    }
    let clen = crate::encode::codeword_length(&precodes, &postcodes);
    if clen != code_len {
        return false;
    }
    proof {
        assert(code_len <= code_len * code_len) by (nonlinear_arith)
            requires
                code_len >= 1,
        ;
        assert(code_len * code_len <= code_len * code_len * msg_len) by (nonlinear_arith)
            requires
                code_len >= 1,
                msg_len >= 1,
        ;
    }
    let mut m0: Tensor3<F> = Tensor3::zero(code_len, code_len, msg_len);
    let mut fi: usize = 0;
    while fi < code_len
        invariant
            fi <= code_len,
            m0.wf(),
            m0.d1 == code_len,
            m0.d2 == code_len,
            m0.d3 == msg_len,
        decreases code_len - fi,
    {
        let mut fj: usize = 0;
        while fj < code_len
            invariant
                fj <= code_len,
                fi < code_len,
                m0.wf(),
                m0.d1 == code_len,
                m0.d2 == code_len,
                m0.d3 == msg_len,
            decreases code_len - fj,
        {
            let mut fk: usize = 0;
            while fk < msg_len
                invariant
                    fk <= msg_len,
                    fi < code_len,
                    fj < code_len,
                    m0.wf(),
                    m0.d1 == code_len,
                    m0.d2 == code_len,
                    m0.d3 == msg_len,
                decreases msg_len - fk,
            {
                m0.set(fi, fj, fk, F::from_word(random_word()));
                fk = fk + 1;
            }
            fj = fj + 1;
        }
        fi = fi + 1;
    }
    // encode along axis 0 (first msg_len second-axis positions), then axis 1
    encode_axis0_3d(&mut m0, msg_len, &precodes, &postcodes);
    let ghost m0_after0 = m0;
    encode_axis1_3d(&mut m0, &precodes, &postcodes);
    proof {
        // the message block survived the second pass, so the first-axis
        // fibers of the message block are still codewords
        assert forall|j2: int, j3: int|
            0 <= j2 < precodes@[0].cols && 0 <= j3 < m0.d3 implies #[trigger] col3_axis0(
            m0,
            j2,
            j3,
        ) == codeword_spec(
            precodes@,
            postcodes@,
            col3_axis0_prefix(m0, j2, j3, precodes@[0].cols as int),
            p,
        ) by {
            assert(col3_axis0(m0, j2, j3) =~= col3_axis0(m0_after0, j2, j3));
            assert(col3_axis0_prefix(m0, j2, j3, precodes@[0].cols as int) =~= col3_axis0_prefix(
                m0_after0,
                j2,
                j3,
                precodes@[0].cols as int,
            ));
        }
        assert(encoded_axis0_3(m0, precodes@, postcodes@, precodes@[0].cols as int, p));
    }
    let r1 = random_coeffs_from_length::<F>(msg_len);
    let r2 = random_coeffs_from_length::<F>(msg_len);
    let m1 = linear_combination_3_2(msg_len, code_len, &m0, &r1);
    let m2 = linear_combination_2_1(msg_len, code_len, &m1, &r2);
    proof {
        lemma_m1_encoded_cols2(precodes@, postcodes@, m0, m1, vals_of(r1@), p);
    }
    let hashes_m0 = merkle_tree_commit_3d(msg_len, code_len, &m0);
    let hashes_m1 = merkle_tree_commit_2d(msg_len, code_len, &m1);
    let np2v3 = next_pow_2(code_len * code_len);
    let np2v2 = next_pow_2(code_len);
    let root0 = copy_hash(&hashes_m0, 0);
    let root1 = copy_hash(&hashes_m1, 0);
    let mut m0_map = PartialTree::new(root0, hashes_m0.len());
    let mut m1_map = PartialTree::new(root1, hashes_m1.len());
    let ghost t0 = views_of(hashes_m0@);
    let ghost t1 = views_of(hashes_m1@);
    proof {
        assert(t0[0] == hashes_m0@[0]@);
        assert(map_agrees(m0_map@, t0));
        assert(t1[0] == hashes_m1@[0]@);
        assert(map_agrees(m1_map@, t1));
    }
    let mut q: usize = 0;
    while q < test_no
        invariant
            q <= test_no,
            p == F::modulus(),
            p > 1,
            chain_wf(precodes@, postcodes@),
            precodes@[0].cols == msg_len,
            codeword_len_spec(precodes@, postcodes@) == code_len,
            1 <= msg_len <= code_len,
            code_len * code_len <= 0x2000_0000,
            m0.wf(),
            m0.d1 == code_len,
            m0.d2 == code_len,
            m0.d3 == msg_len,
            encoded_axis1_3(m0, precodes@, postcodes@, p),
            r1@.len() == msg_len,
            all_inv(r1@),
            r2@.len() == msg_len,
            all_inv(r2@),
            m1.wf(),
            m1.d1 == code_len,
            m1.d2 == msg_len,
            forall|i1: int, i2: int|
                0 <= i1 < code_len && 0 <= i2 < msg_len ==> #[trigger] m1.at(i1, i2) == lc3_at(
                    m0,
                    vals_of(r1@),
                    i1,
                    i2,
                    p,
                ),
            encoded_cols2(m1, precodes@, postcodes@, p),
            m2@.len() == msg_len,
            all_inv(m2@),
            forall|i: int|
                0 <= i < msg_len ==> (#[trigger] m2@[i]).val() == lc2_at(m1, vals_of(r2@), i, p),
            np2v3 == np2((code_len * code_len) as nat),
            code_len * code_len <= np2v3 <= 0x4000_0000,
            np2v2 == np2(code_len as nat),
            code_len <= np2v2 <= 0x4000_0000,
            t0 == views_of(hashes_m0@),
            hashes_m0@.len() == 2 * np2v3 - 1,
            tree_linked(t0),
            forall|i1: int, i2: int|
                0 <= i1 < code_len && 0 <= i2 < code_len ==> (#[trigger] hashes_m0@[np2v3 - 1 + i1
                    + i2 * code_len])@ == crate::hash::digest_of(
                    reprs_cat(fiber3_vals(m0, i1, i2), F::repr_len()),
                ),
            m0_map.size() == hashes_m0@.len(),
            map_agrees(m0_map@, t0),
            m0_map@.contains_key(0),
            t1 == views_of(hashes_m1@),
            hashes_m1@.len() == 2 * np2v2 - 1,
            tree_linked(t1),
            forall|i1: int|
                0 <= i1 < code_len ==> (#[trigger] hashes_m1@[np2v2 - 1 + i1])@ == crate::hash::digest_of(
                    reprs_cat(row2_vals(m1, i1), F::repr_len()),
                ),
            m1_map.size() == hashes_m1@.len(),
            map_agrees(m1_map@, t1),
            m1_map@.contains_key(0),
        decreases test_no - q,
    {
        let i1 = sample_index(code_len);
        let i2 = sample_index(code_len);
        // consistency of the outer reduction
        let ok_a = check_linear_combination_3_2(
            msg_len,
            code_len,
            &m0,
            &m1,
            &r1,
            &precodes,
            &postcodes,
            i1,
            i2,
        );
        proof {
            lemma_lc3_complete(
                precodes@,
                postcodes@,
                m0,
                m1,
                vals_of(r1@),
                i1 as int,
                p,
            );
        }
        if !ok_a {
            proof {
                assert(false);
            }
            return false;
        }
        // consistency of the inner reduction
        let ok_b = check_linear_combination_2_1(
            msg_len,
            code_len,
            &m1,
            &m2,
            &r2,
            &precodes,
            &postcodes,
            i1,
        );
        proof {
            lemma_lc2_complete(precodes@, postcodes@, m1, vals_of(r2@), vals_of(m2@), p);
            assert(vals_of(m2@) =~= Seq::new(msg_len as nat, |i: int| m2@[i].val()));
        }
        if !ok_b {
            proof {
                assert(false);
            }
            return false;
        }
        // the Merkle paths for both levels
        let leaf0 = leaf_hash_3d(&m0, i1, i2);
        proof {
            lemma_leaf_index_3d(code_len as int, i1 as int, i2 as int);
        }
        let idx0 = np2v3 - 1 + i1 + i2 * code_len;
        proof {
            assert(t0[idx0 as int] == hashes_m0@[np2v3 - 1 + i1 as int + i2 as int * code_len]@);
            assert(leaf0@ == t0[idx0 as int]);
            lemma_climb_complete(t0, idx0 as int, m0_map@);
        }
        let okm0 = check_merkle_path(leaf0, idx0, &mut m0_map, &hashes_m0);
        if !okm0 {
            proof {
                assert(false);
            }
            return false;
        }
        let leaf1 = leaf_hash_2d(&m1, i1);
        let idx1 = np2v2 - 1 + i1;
        proof {
            assert(t1[idx1 as int] == hashes_m1@[np2v2 - 1 + i1 as int]@);
            assert(leaf1@ == t1[idx1 as int]);
            lemma_climb_complete(t1, idx1 as int, m1_map@);
        }
        let okm1 = check_merkle_path(leaf1, idx1, &mut m1_map, &hashes_m1);
        if !okm1 {
            proof {
                assert(false);
            }
            return false;
        }
        q = q + 1;
    }
    true
}

/// The random linear combination of the first `j` last-axis entries at
/// `(i1, i2, i3)` of a four-dimensional array.
pub open spec fn lc4_prefix<F: Field>(
    m: Tensor4<F>,
    r: Seq<nat>,
    i1: int,
    i2: int,
    i3: int,
    j: int,
    p: nat,
) -> nat
    decreases j,
{
    if j <= 0 {
        0
    } else {
        (lc4_prefix(m, r, i1, i2, i3, j - 1, p) + r[j - 1] * m.at(i1, i2, i3, j - 1)) % p
    }
}

/// The random linear combination of the fiber at `(i1, i2, i3)`.
pub open spec fn lc4_at<F: Field>(
    m: Tensor4<F>,
    r: Seq<nat>,
    i1: int,
    i2: int,
    i3: int,
    p: nat,
) -> nat {
    lc4_prefix(m, r, i1, i2, i3, r.len() as int, p)
}

/// The `r`-combination of one last-axis fiber of a four-dimensional array.
fn lc4_fiber<F: Field>(
    msg_len: usize,
    m_4d: &Tensor4<F>,
    r: &Vec<F>,
    i1: usize,
    i2: usize,
    i3: usize,
) -> (s: F)
    requires
        m_4d.wf(),
        m_4d.d4 == msg_len,
        i1 < m_4d.d1,
        i2 < m_4d.d2,
        i3 < m_4d.d3,
        r@.len() == msg_len,
        all_inv(r@),
    ensures
        s.inv(),
        s.val() == lc4_at(*m_4d, vals_of(r@), i1 as int, i2 as int, i3 as int, F::modulus()),
{
    let ghost p = F::modulus();
    let ghost rv = vals_of(r@);
    proof {
        F::lemma_modulus();
    }
    let mut s = F::zero();
    let mut i4: usize = 0;
    while i4 < msg_len
        invariant
            i4 <= msg_len,
            m_4d.wf(),
            m_4d.d4 == msg_len,
            i1 < m_4d.d1,
            i2 < m_4d.d2,
            i3 < m_4d.d3,
            r@.len() == msg_len,
            all_inv(r@),
            p == F::modulus(),
            p > 1,
            rv == vals_of(r@),
            s.inv(),
            s.val() == lc4_prefix(*m_4d, rv, i1 as int, i2 as int, i3 as int, i4 as int, p),
        decreases msg_len - i4,
    {
        let t = r[i4].mul(m_4d.get(i1, i2, i3, i4));
        proof {
            lemma_add_mod_noop_right(
                s.val() as int,
                (r@[i4 as int].val() * m_4d.at(i1 as int, i2 as int, i3 as int, i4 as int)) as int,
                p as int,
            );
            assert(rv[i4 as int] == r@[i4 as int].val());
        }
        s = s.add(t);
        i4 = i4 + 1;
    }
    s
}

/// Reduce the committed four-dimensional array along its last axis.
pub fn linear_combination_4_3<F: Field>(
    msg_len: usize,
    code_len: usize,
    m_4d: &Tensor4<F>,
    r: &Vec<F>,
) -> (res: Tensor3<F>)
    requires
        m_4d.wf(),
        m_4d.d1 == code_len,
        m_4d.d2 == code_len,
        m_4d.d3 == code_len,
        m_4d.d4 == msg_len,
        msg_len <= code_len,
        r@.len() == msg_len,
        all_inv(r@),
    ensures
        res.wf(),
        res.d1 == code_len,
        res.d2 == code_len,
        res.d3 == msg_len,
        forall|i1: int, i2: int, i3: int|
            0 <= i1 < code_len && 0 <= i2 < code_len && 0 <= i3 < msg_len ==> #[trigger] res.at(
                i1,
                i2,
                i3,
            ) == lc4_at(*m_4d, vals_of(r@), i1, i2, i3, F::modulus()),
{
    let ghost p = F::modulus();
    let ghost rv = vals_of(r@);
    proof {
        F::lemma_modulus();
        assert(code_len * code_len * msg_len <= m_4d.d1 * m_4d.d2 * m_4d.d3)
            by (nonlinear_arith)
            requires
                code_len == m_4d.d1,
                code_len == m_4d.d2,
                msg_len <= m_4d.d3,
                code_len >= 0,
        ;
        assert(m_4d.d1 * m_4d.d2 <= usize::MAX && m_4d.d1 * m_4d.d2 * m_4d.d3 <= usize::MAX);
        assert(code_len * code_len <= m_4d.d1 * m_4d.d2) by (nonlinear_arith)
            requires
                code_len == m_4d.d1,
                code_len == m_4d.d2,
        ;
    }
    let mut res: Tensor3<F> = Tensor3::zero(code_len, code_len, msg_len);
    let mut i1: usize = 0;
    while i1 < code_len
        invariant
            i1 <= code_len,
            m_4d.wf(),
            m_4d.d1 == code_len,
            m_4d.d2 == code_len,
            m_4d.d3 == code_len,
            m_4d.d4 == msg_len,
            msg_len <= code_len,
            r@.len() == msg_len,
            all_inv(r@),
            p == F::modulus(),
            p > 1,
            rv == vals_of(r@),
            res.wf(),
            res.d1 == code_len,
            res.d2 == code_len,
            res.d3 == msg_len,
            forall|j1: int, j2: int, j3: int|
                0 <= j1 < i1 && 0 <= j2 < code_len && 0 <= j3 < msg_len ==> #[trigger] res.at(
                    j1,
                    j2,
                    j3,
                ) == lc4_at(*m_4d, rv, j1, j2, j3, p),
        decreases code_len - i1,
    {
        let mut i2: usize = 0;
        while i2 < code_len
            invariant
                i2 <= code_len,
                i1 < code_len,
                m_4d.wf(),
                m_4d.d1 == code_len,
                m_4d.d2 == code_len,
                m_4d.d3 == code_len,
                m_4d.d4 == msg_len,
                msg_len <= code_len,
                r@.len() == msg_len,
                all_inv(r@),
                p == F::modulus(),
                p > 1,
                rv == vals_of(r@),
                res.wf(),
                res.d1 == code_len,
                res.d2 == code_len,
                res.d3 == msg_len,
                forall|j1: int, j2: int, j3: int|
                    0 <= j1 < i1 && 0 <= j2 < code_len && 0 <= j3 < msg_len ==> #[trigger] res.at(
                        j1,
                        j2,
                        j3,
                    ) == lc4_at(*m_4d, rv, j1, j2, j3, p),
                forall|j2: int, j3: int|
                    0 <= j2 < i2 && 0 <= j3 < msg_len ==> #[trigger] res.at(i1 as int, j2, j3)
                        == lc4_at(*m_4d, rv, i1 as int, j2, j3, p),
            decreases code_len - i2,
        {
            let mut i3: usize = 0;
            while i3 < msg_len
                invariant
                    i3 <= msg_len,
                    i1 < code_len,
                    i2 < code_len,
                    m_4d.wf(),
                    m_4d.d1 == code_len,
                    m_4d.d2 == code_len,
                    m_4d.d3 == code_len,
                    m_4d.d4 == msg_len,
                    msg_len <= code_len,
                    r@.len() == msg_len,
                    all_inv(r@),
                    p == F::modulus(),
                    p > 1,
                    rv == vals_of(r@),
                    res.wf(),
                    res.d1 == code_len,
                    res.d2 == code_len,
                    res.d3 == msg_len,
                    forall|j1: int, j2: int, j3: int|
                        0 <= j1 < i1 && 0 <= j2 < code_len && 0 <= j3 < msg_len
                            ==> #[trigger] res.at(j1, j2, j3) == lc4_at(*m_4d, rv, j1, j2, j3, p),
                    forall|j2: int, j3: int|
                        0 <= j2 < i2 && 0 <= j3 < msg_len ==> #[trigger] res.at(i1 as int, j2, j3)
                            == lc4_at(*m_4d, rv, i1 as int, j2, j3, p),
                    forall|j3: int|
                        0 <= j3 < i3 ==> #[trigger] res.at(i1 as int, i2 as int, j3) == lc4_at(
                            *m_4d,
                            rv,
                            i1 as int,
                            i2 as int,
                            j3,
                            p,
                        ),
                decreases msg_len - i3,
            {
                let sv = lc4_fiber(msg_len, m_4d, r, i1, i2, i3);
                res.set(i1, i2, i3, sv);
                i3 = i3 + 1;
            }
            i2 = i2 + 1;
        }
        i1 = i1 + 1;
    }
    res
}

/// The verifier's consistency check between the four- and three-dimensional
/// reduction levels, at the sampled coordinates `(i1, i2, i3)`.
pub fn check_linear_combination_4_3<F: Field>(
    msg_len: usize,
    code_len: usize,
    m_4d: &Tensor4<F>,
    m_3d: &Tensor3<F>,
    r: &Vec<F>,
    precodes: &Vec<SparseMatrix<F>>,
    postcodes: &Vec<SparseMatrix<F>>,
    i1: usize,
    i2: usize,
    i3: usize,
) -> (ok: bool)
    requires
        chain_wf(precodes@, postcodes@),
        precodes@[0].cols == msg_len,
        codeword_len_spec(precodes@, postcodes@) == code_len,
        m_4d.wf(),
        m_4d.d1 == code_len,
        m_4d.d2 == code_len,
        m_4d.d3 == code_len,
        m_4d.d4 == msg_len,
        m_3d.wf(),
        m_3d.d1 == code_len,
        m_3d.d2 == code_len,
        m_3d.d3 == msg_len,
        msg_len <= code_len,
        r@.len() == msg_len,
        all_inv(r@),
        i1 < code_len,
        i2 < code_len,
        i3 < code_len,
    ensures
        ok == (codeword_spec(
            precodes@,
            postcodes@,
            fiber3_vals(*m_3d, i1 as int, i2 as int),
            F::modulus(),
        )[i3 as int] == lc4_at(*m_4d, vals_of(r@), i1 as int, i2 as int, i3 as int, F::modulus())),
{
    let ghost p = F::modulus();
    proof {
        F::lemma_modulus();
        crate::encode::lemma_codeword_len_agree(
            precodes@,
            postcodes@,
            fiber3_vals(*m_3d, i1 as int, i2 as int),
            p,
        );
    }
    let mut msg: Vec<F> = Vec::new();
    let mut t: usize = 0;
    while t < msg_len
        invariant
            t <= msg_len,
            m_3d.wf(),
            m_3d.d1 == code_len,
            m_3d.d2 == code_len,
            m_3d.d3 == msg_len,
            i1 < code_len,
            i2 < code_len,
            msg@.len() == t,
            all_inv(msg@),
            forall|j: int|
                0 <= j < t ==> (#[trigger] msg@[j]).val() == m_3d.at(i1 as int, i2 as int, j),
        decreases msg_len - t,
    {
        msg.push(m_3d.get(i1, i2, t));
        t = t + 1;
    }
    let z = F::zero();
    while msg.len() < code_len
        invariant
            msg_len <= msg@.len() <= code_len,
            m_3d.wf(),
            m_3d.d1 == code_len,
            m_3d.d2 == code_len,
            m_3d.d3 == msg_len,
            i1 < code_len,
            i2 < code_len,
            all_inv(msg@),
            z.inv(),
            forall|j: int|
                0 <= j < msg_len ==> (#[trigger] msg@[j]).val() == m_3d.at(
                    i1 as int,
                    i2 as int,
                    j,
                ),
        decreases code_len - msg@.len(),
    {
        msg.push(z);
    }
    let ghost msg_before = msg@;
    encode(&mut msg, precodes, postcodes);
    proof {
        assert(vals_window(msg_before, 0, msg_len as int) =~= fiber3_vals(
            *m_3d,
            i1 as int,
            i2 as int,
        ));
    }
    let s = lc4_fiber(msg_len, m_4d, r, i1, i2, i3);
    proof {
        assert(vals_of(msg@)[i3 as int] == msg@[i3 as int].val());
    }
    let ok = s.eq_elt(msg[i3]);
    ok
}


/// Residues along the first axis at `(i2, i3, i4)` fixed.
pub open spec fn col4_axis0<F: Field>(m: Tensor4<F>, i2: int, i3: int, i4: int) -> Seq<nat> {
    Seq::new(m.d1 as nat, |i1: int| m.at(i1, i2, i3, i4))
}

/// The first `n` residues along the first axis at `(i2, i3, i4)` fixed.
pub open spec fn col4_axis0_prefix<F: Field>(
    m: Tensor4<F>,
    i2: int,
    i3: int,
    i4: int,
    n: int,
) -> Seq<nat> {
    Seq::new(n as nat, |i1: int| m.at(i1, i2, i3, i4))
}

/// Residues along the second axis at `(i1, i3, i4)` fixed.
pub open spec fn col4_axis1<F: Field>(m: Tensor4<F>, i1: int, i3: int, i4: int) -> Seq<nat> {
    Seq::new(m.d2 as nat, |i2: int| m.at(i1, i2, i3, i4))
}

/// The first `n` residues along the second axis at `(i1, i3, i4)` fixed.
pub open spec fn col4_axis1_prefix<F: Field>(
    m: Tensor4<F>,
    i1: int,
    i3: int,
    i4: int,
    n: int,
) -> Seq<nat> {
    Seq::new(n as nat, |i2: int| m.at(i1, i2, i3, i4))
}

/// Residues along the third axis at `(i1, i2, i4)` fixed.
pub open spec fn col4_axis2<F: Field>(m: Tensor4<F>, i1: int, i2: int, i4: int) -> Seq<nat> {
    Seq::new(m.d3 as nat, |i3: int| m.at(i1, i2, i3, i4))
}

/// The first `n` residues along the third axis at `(i1, i2, i4)` fixed.
pub open spec fn col4_axis2_prefix<F: Field>(
    m: Tensor4<F>,
    i1: int,
    i2: int,
    i4: int,
    n: int,
) -> Seq<nat> {
    Seq::new(n as nat, |i3: int| m.at(i1, i2, i3, i4))
}

/// Every first-axis fiber in the message block is the codeword of its own
/// message prefix.
pub open spec fn encoded_axis0_4<F: Field>(
    m: Tensor4<F>,
    pre: Seq<SparseMatrix<F>>,
    post: Seq<SparseMatrix<F>>,
    lim2: int,
    lim3: int,
    p: nat,
) -> bool {
    forall|i2: int, i3: int, i4: int|
        0 <= i2 < lim2 && 0 <= i3 < lim3 && 0 <= i4 < m.d4 ==> #[trigger] col4_axis0(
            m,
            i2,
            i3,
            i4,
        ) == codeword_spec(pre, post, col4_axis0_prefix(m, i2, i3, i4, pre[0].cols as int), p)
}

/// Every second-axis fiber with `i3` in the message block is the codeword
/// of its own message prefix.
pub open spec fn encoded_axis1_4<F: Field>(
    m: Tensor4<F>,
    pre: Seq<SparseMatrix<F>>,
    post: Seq<SparseMatrix<F>>,
    lim3: int,
    p: nat,
) -> bool {
    forall|i1: int, i3: int, i4: int|
        0 <= i1 < m.d1 && 0 <= i3 < lim3 && 0 <= i4 < m.d4 ==> #[trigger] col4_axis1(
            m,
            i1,
            i3,
            i4,
        ) == codeword_spec(pre, post, col4_axis1_prefix(m, i1, i3, i4, pre[0].cols as int), p)
}

/// Every third-axis fiber is the codeword of its own message prefix.
pub open spec fn encoded_axis2_4<F: Field>(
    m: Tensor4<F>,
    pre: Seq<SparseMatrix<F>>,
    post: Seq<SparseMatrix<F>>,
    p: nat,
) -> bool {
    forall|i1: int, i2: int, i4: int|
        0 <= i1 < m.d1 && 0 <= i2 < m.d2 && 0 <= i4 < m.d4 ==> #[trigger] col4_axis2(
            m,
            i1,
            i2,
            i4,
        ) == codeword_spec(pre, post, col4_axis2_prefix(m, i1, i2, i4, pre[0].cols as int), p)
}


/// Encode a four-dimensional array along its first axis: for every `i2`
/// and `i3` below `lim` and every `i4`, the first-axis fiber becomes the
/// codeword of its own message prefix.
#[verifier::rlimit(100)]
#[verifier::spinoff_prover]
pub fn encode_axis0_4d<F: Field>(
    m: &mut Tensor4<F>,
    lim: usize,
    precodes: &Vec<SparseMatrix<F>>,
    postcodes: &Vec<SparseMatrix<F>>,
)
    requires
        chain_wf(precodes@, postcodes@),
        old(m).wf(),
        old(m).d1 == codeword_len_spec(precodes@, postcodes@),
        precodes@[0].cols <= old(m).d1,
        lim <= old(m).d2,
        lim <= old(m).d3,
    ensures
        final (m).wf(),
        final (m).d1 == old(m).d1,
        final (m).d2 == old(m).d2,
        final (m).d3 == old(m).d3,
        final (m).d4 == old(m).d4,
        encoded_axis0_4(*final (m), precodes@, postcodes@, lim as int, lim as int, F::modulus()),
{
    let ghost p = F::modulus();
    proof {
        F::lemma_modulus();
    }
    let code_len = m.d1;
    let ea = lim;
    let eb = lim;
    let d4 = m.d4;
    let ghost m_orig = *m;
    let mut i4: usize = 0;
    while i4 < d4
        invariant
            i4 <= d4,
            chain_wf(precodes@, postcodes@),
            p == F::modulus(),
            p > 1,
            m.wf(),
            m.d1 == old(m).d1,
            m.d2 == old(m).d2,
            m.d3 == old(m).d3,
            m.d4 == d4,
            code_len == m.d1,
            code_len == codeword_len_spec(precodes@, postcodes@),
            precodes@[0].cols <= code_len,
            lim <= m.d2,
            lim <= m.d3,
            ea <= m.d2,
            eb <= m.d3,
            m_orig == *old(m),

            forall|ja: int, jb: int, j4: int|
                0 <= ja < ea && 0 <= jb < eb && 0 <= j4 < i4 ==> #[trigger] col4_axis0(*m, ja, jb, j4)
                    == codeword_spec(
                    precodes@,
                    postcodes@,
                    col4_axis0_prefix(*m, ja, jb, j4, precodes@[0].cols as int),
                    p,
                ),
        decreases d4 - i4,
    {
        let mut a: usize = 0;
        while a < ea
            invariant
                a <= ea,
                i4 < d4,
                chain_wf(precodes@, postcodes@),
                p == F::modulus(),
                p > 1,
                m.wf(),
                m.d1 == old(m).d1,
                m.d2 == old(m).d2,
                m.d3 == old(m).d3,
                m.d4 == d4,
                code_len == m.d1,
                code_len == codeword_len_spec(precodes@, postcodes@),
                precodes@[0].cols <= code_len,
                lim <= m.d2,
                lim <= m.d3,
                ea <= m.d2,
                eb <= m.d3,
                m_orig == *old(m),

                forall|ja: int, jb: int, j4: int|
                    0 <= ja < ea && 0 <= jb < eb && 0 <= j4 < i4 ==> #[trigger] col4_axis0(
                        *m,
                        ja,
                        jb,
                        j4,
                    ) == codeword_spec(
                        precodes@,
                        postcodes@,
                        col4_axis0_prefix(*m, ja, jb, j4, precodes@[0].cols as int),
                        p,
                    ),
                forall|ja: int, jb: int|
                    0 <= ja < a && 0 <= jb < eb ==> #[trigger] col4_axis0(*m, ja, jb, i4 as int)
                        == codeword_spec(
                        precodes@,
                        postcodes@,
                        col4_axis0_prefix(*m, ja, jb, i4 as int, precodes@[0].cols as int),
                        p,
                    ),
            decreases ea - a,
        {
            let mut b: usize = 0;
            while b < eb
                invariant
                    b <= eb,
                    a < ea,
                    i4 < d4,
                    chain_wf(precodes@, postcodes@),
                    p == F::modulus(),
                    p > 1,
                    m.wf(),
                    m.d1 == old(m).d1,
                    m.d2 == old(m).d2,
                    m.d3 == old(m).d3,
                    m.d4 == d4,
                    code_len == m.d1,
                    code_len == codeword_len_spec(precodes@, postcodes@),
                    precodes@[0].cols <= code_len,
                    lim <= m.d2,
                    lim <= m.d3,
                    ea <= m.d2,
                    eb <= m.d3,
                    m_orig == *old(m),

                    forall|ja: int, jb: int, j4: int|
                        0 <= ja < ea && 0 <= jb < eb && 0 <= j4 < i4 ==> #[trigger] col4_axis0(
                            *m,
                            ja,
                            jb,
                            j4,
                        ) == codeword_spec(
                            precodes@,
                            postcodes@,
                            col4_axis0_prefix(*m, ja, jb, j4, precodes@[0].cols as int),
                            p,
                        ),
                    forall|ja: int, jb: int|
                        0 <= ja < a && 0 <= jb < eb ==> #[trigger] col4_axis0(*m, ja, jb, i4 as int)
                            == codeword_spec(
                            precodes@,
                            postcodes@,
                            col4_axis0_prefix(*m, ja, jb, i4 as int, precodes@[0].cols as int),
                            p,
                        ),
                    forall|jb: int|
                        0 <= jb < b ==> #[trigger] col4_axis0(*m, a as int, jb, i4 as int)
                            == codeword_spec(
                            precodes@,
                            postcodes@,
                            col4_axis0_prefix(*m, a as int, jb, i4 as int, precodes@[0].cols as int),
                            p,
                        ),
                decreases eb - b,
            {
                let mut fib: Vec<F> = Vec::new();
                let mut t2: usize = 0;
                while t2 < code_len
                    invariant
                        t2 <= code_len,
                        b < eb,
                        a < ea,
                        i4 < d4,
                        m.wf(),
                        m.d1 == old(m).d1,
                        m.d2 == old(m).d2,
                        m.d3 == old(m).d3,
                        m.d4 == d4,
                        code_len == m.d1,
                        ea <= m.d2,
                        eb <= m.d3,
                        fib@.len() == t2,
                        all_inv(fib@),
                        forall|jt: int|
                            0 <= jt < t2 ==> (#[trigger] fib@[jt]).val() == m.at(jt, a as int, b as int, i4 as int),
                    decreases code_len - t2,
                {
                    fib.push(m.get(t2, a, b, i4));
                    t2 = t2 + 1;
                }
                proof {
                    assert(vals_of(fib@) =~= col4_axis0(*m, a as int, b as int, i4 as int));
                }
                let ghost fib_before = fib@;
                let ghost m_before = *m;
                encode(&mut fib, precodes, postcodes);
                proof {
                    assert(vals_window(fib_before, 0, precodes@[0].cols as int) =~= col4_axis0_prefix(
                        m_before,
                        a as int,
                        b as int,
                        i4 as int,
                        precodes@[0].cols as int,
                    ));
                }
                let mut t3: usize = 0;
                while t3 < code_len
                    invariant
                        t3 <= code_len,
                        b < eb,
                        a < ea,
                        i4 < d4,
                        p == F::modulus(),
                        p > 1,
                        m.wf(),
                        m.d1 == old(m).d1,
                        m.d2 == old(m).d2,
                        m.d3 == old(m).d3,
                        m.d4 == d4,
                        code_len == m.d1,
                        precodes@[0].cols <= code_len,
                        ea <= m.d2,
                        eb <= m.d3,
                        fib@.len() == code_len,
                        all_inv(fib@),
                        vals_of(fib@) == codeword_spec(
                            precodes@,
                            postcodes@,
                            vals_window(fib_before, 0, precodes@[0].cols as int),
                            p,
                        ),
                        forall|j1: int, j2: int, j3: int, j4: int|
                            0 <= j1 < m.d1 && 0 <= j2 < m.d2 && 0 <= j3 < m.d3 && 0 <= j4 < d4
                                && !(j2 == a && j3 == b && j4 == i4) ==> #[trigger] m.at(j1, j2, j3, j4)
                                == m_before.at(j1, j2, j3, j4),
                        forall|jt: int| 0 <= jt < t3 ==> #[trigger] m.at(jt, a as int, b as int, i4 as int) == fib@[jt].val(),
                        forall|jt: int| t3 <= jt < code_len ==> #[trigger] m.at(jt, a as int, b as int, i4 as int) == m_before.at(jt, a as int, b as int, i4 as int),
                    decreases code_len - t3,
                {
                    m.set(t3, a, b, i4, fib[t3]);
                    t3 = t3 + 1;
                }
                proof {
                    let l0 = precodes@[0].cols as int;
                    assert(col4_axis0(*m, a as int, b as int, i4 as int) =~= vals_of(fib@));
                    crate::encode::lemma_codeword_spec_len(
                        precodes@,
                        postcodes@,
                        vals_window(fib_before, 0, l0),
                        p,
                    );
                    assert forall|jt: int| 0 <= jt < l0 implies #[trigger] m.at(jt, a as int, b as int, i4 as int)
                        == m_before.at(jt, a as int, b as int, i4 as int) by {
                        assert(m.at(jt, a as int, b as int, i4 as int) == vals_of(fib@)[jt]);
                        assert(vals_of(fib@)[jt] == codeword_spec(
                            precodes@,
                            postcodes@,
                            vals_window(fib_before, 0, l0),
                            p,
                        )[jt]);
                        assert(codeword_spec(
                            precodes@,
                            postcodes@,
                            vals_window(fib_before, 0, l0),
                            p,
                        )[jt] == vals_window(fib_before, 0, l0)[jt]);
                        assert(vals_window(fib_before, 0, l0)[jt] == fib_before[jt].val());
                        assert(fib_before[jt].val() == m_before.at(jt, a as int, b as int, i4 as int));
                    }
                    assert(col4_axis0_prefix(*m, a as int, b as int, i4 as int, l0) =~= col4_axis0_prefix(
                        m_before,
                        a as int,
                        b as int,
                        i4 as int,
                        l0,
                    ));
                    assert(col4_axis0(*m, a as int, b as int, i4 as int) == codeword_spec(
                        precodes@,
                        postcodes@,
                        col4_axis0_prefix(*m, a as int, b as int, i4 as int, l0),
                        p,
                    ));

                    assert forall|ja: int, jb: int, j4: int|
                        0 <= ja < ea && 0 <= jb < eb && 0 <= j4 < i4 implies #[trigger] col4_axis0(
                        *m,
                        ja,
                        jb,
                        j4,
                    ) == codeword_spec(
                        precodes@,
                        postcodes@,
                        col4_axis0_prefix(*m, ja, jb, j4, l0),
                        p,
                    ) by {
                        assert(col4_axis0(*m, ja, jb, j4) =~= col4_axis0(m_before, ja, jb, j4));
                        assert(col4_axis0_prefix(*m, ja, jb, j4, l0) =~= col4_axis0_prefix(m_before, ja, jb, j4, l0));
                    }
                    assert forall|ja: int, jb: int|
                        0 <= ja < a && 0 <= jb < eb implies #[trigger] col4_axis0(
                        *m,
                        ja,
                        jb,
                        i4 as int,
                    ) == codeword_spec(
                        precodes@,
                        postcodes@,
                        col4_axis0_prefix(*m, ja, jb, i4 as int, l0),
                        p,
                    ) by {
                        assert(col4_axis0(*m, ja, jb, i4 as int) =~= col4_axis0(
                            m_before,
                            ja,
                            jb,
                            i4 as int,
                        ));
                        assert(col4_axis0_prefix(*m, ja, jb, i4 as int, l0) =~= col4_axis0_prefix(
                            m_before,
                            ja,
                            jb,
                            i4 as int,
                            l0,
                        ));
                    }
                    assert forall|jb: int|
                        0 <= jb < b implies #[trigger] col4_axis0(*m, a as int, jb, i4 as int)
                        == codeword_spec(
                        precodes@,
                        postcodes@,
                        col4_axis0_prefix(*m, a as int, jb, i4 as int, l0),
                        p,
                    ) by {
                        assert(col4_axis0(*m, a as int, jb, i4 as int) =~= col4_axis0(
                            m_before,
                            a as int,
                            jb,
                            i4 as int,
                        ));
                        assert(col4_axis0_prefix(*m, a as int, jb, i4 as int, l0) =~= col4_axis0_prefix(
                            m_before,
                            a as int,
                            jb,
                            i4 as int,
                            l0,
                        ));
                    }
                }
                b = b + 1;
            }
            a = a + 1;
        }
        i4 = i4 + 1;
        proof {
            assert forall|ja: int, jb: int, j4: int|
                0 <= ja < ea && 0 <= jb < eb && 0 <= j4 < i4 implies #[trigger] col4_axis0(
                *m,
                ja,
                jb,
                j4,
            ) == codeword_spec(
                precodes@,
                postcodes@,
                col4_axis0_prefix(*m, ja, jb, j4, precodes@[0].cols as int),
                p,
            ) by {
                if j4 == i4 - 1 {
                    assert(col4_axis0(*m, ja, jb, i4 - 1) == codeword_spec(
                        precodes@,
                        postcodes@,
                        col4_axis0_prefix(*m, ja, jb, i4 - 1, precodes@[0].cols as int),
                        p,
                    ));
                }
            }
        }
    }
}

/// Encode a four-dimensional array along its second axis, for every `i1`,
/// every `i3` below `lim` and every `i4`; entries with `i2` below the
/// message length keep their values (the code is systematic).
#[verifier::rlimit(100)]
#[verifier::spinoff_prover]
pub fn encode_axis1_4d<F: Field>(
    m: &mut Tensor4<F>,
    lim: usize,
    precodes: &Vec<SparseMatrix<F>>,
    postcodes: &Vec<SparseMatrix<F>>,
)
    requires
        chain_wf(precodes@, postcodes@),
        old(m).wf(),
        old(m).d2 == codeword_len_spec(precodes@, postcodes@),
        precodes@[0].cols <= old(m).d2,
        lim <= old(m).d2,
        lim <= old(m).d3,
    ensures
        final (m).wf(),
        final (m).d1 == old(m).d1,
        final (m).d2 == old(m).d2,
        final (m).d3 == old(m).d3,
        final (m).d4 == old(m).d4,
        encoded_axis1_4(*final (m), precodes@, postcodes@, lim as int, F::modulus()),
        forall|j1: int, j2: int, j3: int, j4: int|
            0 <= j1 < old(m).d1 && 0 <= j2 < precodes@[0].cols && 0 <= j3 < old(m).d3 && 0 <= j4
                < old(m).d4 ==> #[trigger] final (m).at(j1, j2, j3, j4) == old(m).at(
                j1,
                j2,
                j3,
                j4,
            ),
{
    let ghost p = F::modulus();
    proof {
        F::lemma_modulus();
    }
    let code_len = m.d2;
    let ea = m.d1;
    let eb = lim;
    let d4 = m.d4;
    let ghost m_orig = *m;
    let mut i4: usize = 0;
    while i4 < d4
        invariant
            i4 <= d4,
            chain_wf(precodes@, postcodes@),
            p == F::modulus(),
            p > 1,
            m.wf(),
            m.d1 == old(m).d1,
            m.d2 == old(m).d2,
            m.d3 == old(m).d3,
            m.d4 == d4,
            code_len == m.d2,
            code_len == codeword_len_spec(precodes@, postcodes@),
            precodes@[0].cols <= code_len,
            lim <= m.d2,
            lim <= m.d3,
            ea <= m.d1,
            eb <= m.d3,
            m_orig == *old(m),
            forall|j1: int, j2: int, j3: int, j4: int|
                0 <= j1 < m.d1 && 0 <= j2 < precodes@[0].cols && 0 <= j3 < m.d3 && 0 <= j4 < d4
                    ==> #[trigger] m.at(j1, j2, j3, j4) == m_orig.at(j1, j2, j3, j4),
            forall|ja: int, jb: int, j4: int|
                0 <= ja < ea && 0 <= jb < eb && 0 <= j4 < i4 ==> #[trigger] col4_axis1(*m, ja, jb, j4)
                    == codeword_spec(
                    precodes@,
                    postcodes@,
                    col4_axis1_prefix(*m, ja, jb, j4, precodes@[0].cols as int),
                    p,
                ),
        decreases d4 - i4,
    {
        let mut a: usize = 0;
        while a < ea
            invariant
                a <= ea,
                i4 < d4,
                chain_wf(precodes@, postcodes@),
                p == F::modulus(),
                p > 1,
                m.wf(),
                m.d1 == old(m).d1,
                m.d2 == old(m).d2,
                m.d3 == old(m).d3,
                m.d4 == d4,
                code_len == m.d2,
                code_len == codeword_len_spec(precodes@, postcodes@),
                precodes@[0].cols <= code_len,
                lim <= m.d2,
                lim <= m.d3,
                ea <= m.d1,
                eb <= m.d3,
                m_orig == *old(m),
            forall|j1: int, j2: int, j3: int, j4: int|
                0 <= j1 < m.d1 && 0 <= j2 < precodes@[0].cols && 0 <= j3 < m.d3 && 0 <= j4 < d4
                    ==> #[trigger] m.at(j1, j2, j3, j4) == m_orig.at(j1, j2, j3, j4),
                forall|ja: int, jb: int, j4: int|
                    0 <= ja < ea && 0 <= jb < eb && 0 <= j4 < i4 ==> #[trigger] col4_axis1(
                        *m,
                        ja,
                        jb,
                        j4,
                    ) == codeword_spec(
                        precodes@,
                        postcodes@,
                        col4_axis1_prefix(*m, ja, jb, j4, precodes@[0].cols as int),
                        p,
                    ),
                forall|ja: int, jb: int|
                    0 <= ja < a && 0 <= jb < eb ==> #[trigger] col4_axis1(*m, ja, jb, i4 as int)
                        == codeword_spec(
                        precodes@,
                        postcodes@,
                        col4_axis1_prefix(*m, ja, jb, i4 as int, precodes@[0].cols as int),
                        p,
                    ),
            decreases ea - a,
        {
            let mut b: usize = 0;
            while b < eb
                invariant
                    b <= eb,
                    a < ea,
                    i4 < d4,
                    chain_wf(precodes@, postcodes@),
                    p == F::modulus(),
                    p > 1,
                    m.wf(),
                    m.d1 == old(m).d1,
                    m.d2 == old(m).d2,
                    m.d3 == old(m).d3,
                    m.d4 == d4,
                    code_len == m.d2,
                    code_len == codeword_len_spec(precodes@, postcodes@),
                    precodes@[0].cols <= code_len,
                    lim <= m.d2,
                    lim <= m.d3,
                    ea <= m.d1,
                    eb <= m.d3,
                    m_orig == *old(m),
            forall|j1: int, j2: int, j3: int, j4: int|
                0 <= j1 < m.d1 && 0 <= j2 < precodes@[0].cols && 0 <= j3 < m.d3 && 0 <= j4 < d4
                    ==> #[trigger] m.at(j1, j2, j3, j4) == m_orig.at(j1, j2, j3, j4),
                    forall|ja: int, jb: int, j4: int|
                        0 <= ja < ea && 0 <= jb < eb && 0 <= j4 < i4 ==> #[trigger] col4_axis1(
                            *m,
                            ja,
                            jb,
                            j4,
                        ) == codeword_spec(
                            precodes@,
                            postcodes@,
                            col4_axis1_prefix(*m, ja, jb, j4, precodes@[0].cols as int),
                            p,
                        ),
                    forall|ja: int, jb: int|
                        0 <= ja < a && 0 <= jb < eb ==> #[trigger] col4_axis1(*m, ja, jb, i4 as int)
                            == codeword_spec(
                            precodes@,
                            postcodes@,
                            col4_axis1_prefix(*m, ja, jb, i4 as int, precodes@[0].cols as int),
                            p,
                        ),
                    forall|jb: int|
                        0 <= jb < b ==> #[trigger] col4_axis1(*m, a as int, jb, i4 as int)
                            == codeword_spec(
                            precodes@,
                            postcodes@,
                            col4_axis1_prefix(*m, a as int, jb, i4 as int, precodes@[0].cols as int),
                            p,
                        ),
                decreases eb - b,
            {
                let mut fib: Vec<F> = Vec::new();
                let mut t2: usize = 0;
                while t2 < code_len
                    invariant
                        t2 <= code_len,
                        b < eb,
                        a < ea,
                        i4 < d4,
                        m.wf(),
                        m.d1 == old(m).d1,
                        m.d2 == old(m).d2,
                        m.d3 == old(m).d3,
                        m.d4 == d4,
                        code_len == m.d2,
                        ea <= m.d1,
                        eb <= m.d3,
                        fib@.len() == t2,
                        all_inv(fib@),
                        forall|jt: int|
                            0 <= jt < t2 ==> (#[trigger] fib@[jt]).val() == m.at(a as int, jt, b as int, i4 as int),
                    decreases code_len - t2,
                {
                    fib.push(m.get(a, t2, b, i4));
                    t2 = t2 + 1;
                }
                proof {
                    assert(vals_of(fib@) =~= col4_axis1(*m, a as int, b as int, i4 as int));
                }
                let ghost fib_before = fib@;
                let ghost m_before = *m;
                encode(&mut fib, precodes, postcodes);
                proof {
                    assert(vals_window(fib_before, 0, precodes@[0].cols as int) =~= col4_axis1_prefix(
                        m_before,
                        a as int,
                        b as int,
                        i4 as int,
                        precodes@[0].cols as int,
                    ));
                }
                let mut t3: usize = 0;
                while t3 < code_len
                    invariant
                        t3 <= code_len,
                        b < eb,
                        a < ea,
                        i4 < d4,
                        p == F::modulus(),
                        p > 1,
                        m.wf(),
                        m.d1 == old(m).d1,
                        m.d2 == old(m).d2,
                        m.d3 == old(m).d3,
                        m.d4 == d4,
                        code_len == m.d2,
                        precodes@[0].cols <= code_len,
                        ea <= m.d1,
                        eb <= m.d3,
                        fib@.len() == code_len,
                        all_inv(fib@),
                        vals_of(fib@) == codeword_spec(
                            precodes@,
                            postcodes@,
                            vals_window(fib_before, 0, precodes@[0].cols as int),
                            p,
                        ),
                        forall|j1: int, j2: int, j3: int, j4: int|
                            0 <= j1 < m.d1 && 0 <= j2 < m.d2 && 0 <= j3 < m.d3 && 0 <= j4 < d4
                                && !(j1 == a && j3 == b && j4 == i4) ==> #[trigger] m.at(j1, j2, j3, j4)
                                == m_before.at(j1, j2, j3, j4),
                        forall|jt: int| 0 <= jt < t3 ==> #[trigger] m.at(a as int, jt, b as int, i4 as int) == fib@[jt].val(),
                        forall|jt: int| t3 <= jt < code_len ==> #[trigger] m.at(a as int, jt, b as int, i4 as int) == m_before.at(a as int, jt, b as int, i4 as int),
                    decreases code_len - t3,
                {
                    m.set(a, t3, b, i4, fib[t3]);
                    t3 = t3 + 1;
                }
                proof {
                    let l0 = precodes@[0].cols as int;
                    assert(col4_axis1(*m, a as int, b as int, i4 as int) =~= vals_of(fib@));
                    crate::encode::lemma_codeword_spec_len(
                        precodes@,
                        postcodes@,
                        vals_window(fib_before, 0, l0),
                        p,
                    );
                    assert forall|jt: int| 0 <= jt < l0 implies #[trigger] m.at(a as int, jt, b as int, i4 as int)
                        == m_before.at(a as int, jt, b as int, i4 as int) by {
                        assert(m.at(a as int, jt, b as int, i4 as int) == vals_of(fib@)[jt]);
                        assert(vals_of(fib@)[jt] == codeword_spec(
                            precodes@,
                            postcodes@,
                            vals_window(fib_before, 0, l0),
                            p,
                        )[jt]);
                        assert(codeword_spec(
                            precodes@,
                            postcodes@,
                            vals_window(fib_before, 0, l0),
                            p,
                        )[jt] == vals_window(fib_before, 0, l0)[jt]);
                        assert(vals_window(fib_before, 0, l0)[jt] == fib_before[jt].val());
                        assert(fib_before[jt].val() == m_before.at(a as int, jt, b as int, i4 as int));
                    }
                    assert(col4_axis1_prefix(*m, a as int, b as int, i4 as int, l0) =~= col4_axis1_prefix(
                        m_before,
                        a as int,
                        b as int,
                        i4 as int,
                        l0,
                    ));
                    assert(col4_axis1(*m, a as int, b as int, i4 as int) == codeword_spec(
                        precodes@,
                        postcodes@,
                        col4_axis1_prefix(*m, a as int, b as int, i4 as int, l0),
                        p,
                    ));
                    assert forall|j1: int, j2: int, j3: int, j4: int|
                        0 <= j1 < m.d1 && 0 <= j2 < l0 && 0 <= j3 < m.d3 && 0 <= j4 < d4
                        implies #[trigger] m.at(j1, j2, j3, j4) == m_orig.at(j1, j2, j3, j4) by {
                        if !(j1 == a && j3 == b && j4 == i4) {
                            assert(m.at(j1, j2, j3, j4) == m_before.at(j1, j2, j3, j4));
                        } else {
                            assert(m.at(j1, j2, j3, j4) == m_before.at(j1, j2, j3, j4));
                        }
                    }
                    assert forall|ja: int, jb: int, j4: int|
                        0 <= ja < ea && 0 <= jb < eb && 0 <= j4 < i4 implies #[trigger] col4_axis1(
                        *m,
                        ja,
                        jb,
                        j4,
                    ) == codeword_spec(
                        precodes@,
                        postcodes@,
                        col4_axis1_prefix(*m, ja, jb, j4, l0),
                        p,
                    ) by {
                        assert(col4_axis1(*m, ja, jb, j4) =~= col4_axis1(m_before, ja, jb, j4));
                        assert(col4_axis1_prefix(*m, ja, jb, j4, l0) =~= col4_axis1_prefix(m_before, ja, jb, j4, l0));
                    }
                    assert forall|ja: int, jb: int|
                        0 <= ja < a && 0 <= jb < eb implies #[trigger] col4_axis1(
                        *m,
                        ja,
                        jb,
                        i4 as int,
                    ) == codeword_spec(
                        precodes@,
                        postcodes@,
                        col4_axis1_prefix(*m, ja, jb, i4 as int, l0),
                        p,
                    ) by {
                        assert(col4_axis1(*m, ja, jb, i4 as int) =~= col4_axis1(
                            m_before,
                            ja,
                            jb,
                            i4 as int,
                        ));
                        assert(col4_axis1_prefix(*m, ja, jb, i4 as int, l0) =~= col4_axis1_prefix(
                            m_before,
                            ja,
                            jb,
                            i4 as int,
                            l0,
                        ));
                    }
                    assert forall|jb: int|
                        0 <= jb < b implies #[trigger] col4_axis1(*m, a as int, jb, i4 as int)
                        == codeword_spec(
                        precodes@,
                        postcodes@,
                        col4_axis1_prefix(*m, a as int, jb, i4 as int, l0),
                        p,
                    ) by {
                        assert(col4_axis1(*m, a as int, jb, i4 as int) =~= col4_axis1(
                            m_before,
                            a as int,
                            jb,
                            i4 as int,
                        ));
                        assert(col4_axis1_prefix(*m, a as int, jb, i4 as int, l0) =~= col4_axis1_prefix(
                            m_before,
                            a as int,
                            jb,
                            i4 as int,
                            l0,
                        ));
                    }
                }
                b = b + 1;
            }
            a = a + 1;
        }
        i4 = i4 + 1;
        proof {
            assert forall|ja: int, jb: int, j4: int|
                0 <= ja < ea && 0 <= jb < eb && 0 <= j4 < i4 implies #[trigger] col4_axis1(
                *m,
                ja,
                jb,
                j4,
            ) == codeword_spec(
                precodes@,
                postcodes@,
                col4_axis1_prefix(*m, ja, jb, j4, precodes@[0].cols as int),
                p,
            ) by {
                if j4 == i4 - 1 {
                    assert(col4_axis1(*m, ja, jb, i4 - 1) == codeword_spec(
                        precodes@,
                        postcodes@,
                        col4_axis1_prefix(*m, ja, jb, i4 - 1, precodes@[0].cols as int),
                        p,
                    ));
                }
            }
        }
    }
}

/// Encode a four-dimensional array along its third axis, for every `i1`,
/// `i2` and `i4`; entries with `i3` below the message length keep their
/// values (the code is systematic).
#[verifier::rlimit(100)]
#[verifier::spinoff_prover]
pub fn encode_axis2_4d<F: Field>(
    m: &mut Tensor4<F>,
    lim: usize,
    precodes: &Vec<SparseMatrix<F>>,
    postcodes: &Vec<SparseMatrix<F>>,
)
    requires
        chain_wf(precodes@, postcodes@),
        old(m).wf(),
        old(m).d3 == codeword_len_spec(precodes@, postcodes@),
        precodes@[0].cols <= old(m).d3,
        lim <= old(m).d2,
        lim <= old(m).d3,
    ensures
        final (m).wf(),
        final (m).d1 == old(m).d1,
        final (m).d2 == old(m).d2,
        final (m).d3 == old(m).d3,
        final (m).d4 == old(m).d4,
        encoded_axis2_4(*final (m), precodes@, postcodes@, F::modulus()),
        forall|j1: int, j2: int, j3: int, j4: int|
            0 <= j1 < old(m).d1 && 0 <= j2 < old(m).d2 && 0 <= j3 < precodes@[0].cols && 0 <= j4
                < old(m).d4 ==> #[trigger] final (m).at(j1, j2, j3, j4) == old(m).at(
                j1,
                j2,
                j3,
                j4,
            ),
{
    let ghost p = F::modulus();
    proof {
        F::lemma_modulus();
    }
    let code_len = m.d3;
    let ea = m.d1;
    let eb = m.d2;
    let d4 = m.d4;
    let ghost m_orig = *m;
    let mut i4: usize = 0;
    while i4 < d4
        invariant
            i4 <= d4,
            chain_wf(precodes@, postcodes@),
            p == F::modulus(),
            p > 1,
            m.wf(),
            m.d1 == old(m).d1,
            m.d2 == old(m).d2,
            m.d3 == old(m).d3,
            m.d4 == d4,
            code_len == m.d3,
            code_len == codeword_len_spec(precodes@, postcodes@),
            precodes@[0].cols <= code_len,
            lim <= m.d2,
            lim <= m.d3,
            ea <= m.d1,
            eb <= m.d2,
            m_orig == *old(m),
            forall|j1: int, j2: int, j3: int, j4: int|
                0 <= j1 < m.d1 && 0 <= j2 < m.d2 && 0 <= j3 < precodes@[0].cols && 0 <= j4 < d4
                    ==> #[trigger] m.at(j1, j2, j3, j4) == m_orig.at(j1, j2, j3, j4),
            forall|ja: int, jb: int, j4: int|
                0 <= ja < ea && 0 <= jb < eb && 0 <= j4 < i4 ==> #[trigger] col4_axis2(*m, ja, jb, j4)
                    == codeword_spec(
                    precodes@,
                    postcodes@,
                    col4_axis2_prefix(*m, ja, jb, j4, precodes@[0].cols as int),
                    p,
                ),
        decreases d4 - i4,
    {
        let mut a: usize = 0;
        while a < ea
            invariant
                a <= ea,
                i4 < d4,
                chain_wf(precodes@, postcodes@),
                p == F::modulus(),
                p > 1,
                m.wf(),
                m.d1 == old(m).d1,
                m.d2 == old(m).d2,
                m.d3 == old(m).d3,
                m.d4 == d4,
                code_len == m.d3,
                code_len == codeword_len_spec(precodes@, postcodes@),
                precodes@[0].cols <= code_len,
                lim <= m.d2,
                lim <= m.d3,
                ea <= m.d1,
                eb <= m.d2,
                m_orig == *old(m),
            forall|j1: int, j2: int, j3: int, j4: int|
                0 <= j1 < m.d1 && 0 <= j2 < m.d2 && 0 <= j3 < precodes@[0].cols && 0 <= j4 < d4
                    ==> #[trigger] m.at(j1, j2, j3, j4) == m_orig.at(j1, j2, j3, j4),
                forall|ja: int, jb: int, j4: int|
                    0 <= ja < ea && 0 <= jb < eb && 0 <= j4 < i4 ==> #[trigger] col4_axis2(
                        *m,
                        ja,
                        jb,
                        j4,
                    ) == codeword_spec(
                        precodes@,
                        postcodes@,
                        col4_axis2_prefix(*m, ja, jb, j4, precodes@[0].cols as int),
                        p,
                    ),
                forall|ja: int, jb: int|
                    0 <= ja < a && 0 <= jb < eb ==> #[trigger] col4_axis2(*m, ja, jb, i4 as int)
                        == codeword_spec(
                        precodes@,
                        postcodes@,
                        col4_axis2_prefix(*m, ja, jb, i4 as int, precodes@[0].cols as int),
                        p,
                    ),
            decreases ea - a,
        {
            let mut b: usize = 0;
            while b < eb
                invariant
                    b <= eb,
                    a < ea,
                    i4 < d4,
                    chain_wf(precodes@, postcodes@),
                    p == F::modulus(),
                    p > 1,
                    m.wf(),
                    m.d1 == old(m).d1,
                    m.d2 == old(m).d2,
                    m.d3 == old(m).d3,
                    m.d4 == d4,
                    code_len == m.d3,
                    code_len == codeword_len_spec(precodes@, postcodes@),
                    precodes@[0].cols <= code_len,
                    lim <= m.d2,
                    lim <= m.d3,
                    ea <= m.d1,
                    eb <= m.d2,
                    m_orig == *old(m),
            forall|j1: int, j2: int, j3: int, j4: int|
                0 <= j1 < m.d1 && 0 <= j2 < m.d2 && 0 <= j3 < precodes@[0].cols && 0 <= j4 < d4
                    ==> #[trigger] m.at(j1, j2, j3, j4) == m_orig.at(j1, j2, j3, j4),
                    forall|ja: int, jb: int, j4: int|
                        0 <= ja < ea && 0 <= jb < eb && 0 <= j4 < i4 ==> #[trigger] col4_axis2(
                            *m,
                            ja,
                            jb,
                            j4,
                        ) == codeword_spec(
                            precodes@,
                            postcodes@,
                            col4_axis2_prefix(*m, ja, jb, j4, precodes@[0].cols as int),
                            p,
                        ),
                    forall|ja: int, jb: int|
                        0 <= ja < a && 0 <= jb < eb ==> #[trigger] col4_axis2(*m, ja, jb, i4 as int)
                            == codeword_spec(
                            precodes@,
                            postcodes@,
                            col4_axis2_prefix(*m, ja, jb, i4 as int, precodes@[0].cols as int),
                            p,
                        ),
                    forall|jb: int|
                        0 <= jb < b ==> #[trigger] col4_axis2(*m, a as int, jb, i4 as int)
                            == codeword_spec(
                            precodes@,
                            postcodes@,
                            col4_axis2_prefix(*m, a as int, jb, i4 as int, precodes@[0].cols as int),
                            p,
                        ),
                decreases eb - b,
            {
                let mut fib: Vec<F> = Vec::new();
                let mut t2: usize = 0;
                while t2 < code_len
                    invariant
                        t2 <= code_len,
                        b < eb,
                        a < ea,
                        i4 < d4,
                        m.wf(),
                        m.d1 == old(m).d1,
                        m.d2 == old(m).d2,
                        m.d3 == old(m).d3,
                        m.d4 == d4,
                        code_len == m.d3,
                        ea <= m.d1,
                        eb <= m.d2,
                        fib@.len() == t2,
                        all_inv(fib@),
                        forall|jt: int|
                            0 <= jt < t2 ==> (#[trigger] fib@[jt]).val() == m.at(a as int, b as int, jt, i4 as int),
                    decreases code_len - t2,
                {
                    fib.push(m.get(a, b, t2, i4));
                    t2 = t2 + 1;
                }
                proof {
                    assert(vals_of(fib@) =~= col4_axis2(*m, a as int, b as int, i4 as int));
                }
                let ghost fib_before = fib@;
                let ghost m_before = *m;
                encode(&mut fib, precodes, postcodes);
                proof {
                    assert(vals_window(fib_before, 0, precodes@[0].cols as int) =~= col4_axis2_prefix(
                        m_before,
                        a as int,
                        b as int,
                        i4 as int,
                        precodes@[0].cols as int,
                    ));
                }
                let mut t3: usize = 0;
                while t3 < code_len
                    invariant
                        t3 <= code_len,
                        b < eb,
                        a < ea,
                        i4 < d4,
                        p == F::modulus(),
                        p > 1,
                        m.wf(),
                        m.d1 == old(m).d1,
                        m.d2 == old(m).d2,
                        m.d3 == old(m).d3,
                        m.d4 == d4,
                        code_len == m.d3,
                        precodes@[0].cols <= code_len,
                        ea <= m.d1,
                        eb <= m.d2,
                        fib@.len() == code_len,
                        all_inv(fib@),
                        vals_of(fib@) == codeword_spec(
                            precodes@,
                            postcodes@,
                            vals_window(fib_before, 0, precodes@[0].cols as int),
                            p,
                        ),
                        forall|j1: int, j2: int, j3: int, j4: int|
                            0 <= j1 < m.d1 && 0 <= j2 < m.d2 && 0 <= j3 < m.d3 && 0 <= j4 < d4
                                && !(j1 == a && j2 == b && j4 == i4) ==> #[trigger] m.at(j1, j2, j3, j4)
                                == m_before.at(j1, j2, j3, j4),
                        forall|jt: int| 0 <= jt < t3 ==> #[trigger] m.at(a as int, b as int, jt, i4 as int) == fib@[jt].val(),
                        forall|jt: int| t3 <= jt < code_len ==> #[trigger] m.at(a as int, b as int, jt, i4 as int) == m_before.at(a as int, b as int, jt, i4 as int),
                    decreases code_len - t3,
                {
                    m.set(a, b, t3, i4, fib[t3]);
                    t3 = t3 + 1;
                }
                proof {
                    let l0 = precodes@[0].cols as int;
                    assert(col4_axis2(*m, a as int, b as int, i4 as int) =~= vals_of(fib@));
                    crate::encode::lemma_codeword_spec_len(
                        precodes@,
                        postcodes@,
                        vals_window(fib_before, 0, l0),
                        p,
                    );
                    assert forall|jt: int| 0 <= jt < l0 implies #[trigger] m.at(a as int, b as int, jt, i4 as int)
                        == m_before.at(a as int, b as int, jt, i4 as int) by {
                        assert(m.at(a as int, b as int, jt, i4 as int) == vals_of(fib@)[jt]);
                        assert(vals_of(fib@)[jt] == codeword_spec(
                            precodes@,
                            postcodes@,
                            vals_window(fib_before, 0, l0),
                            p,
                        )[jt]);
                        assert(codeword_spec(
                            precodes@,
                            postcodes@,
                            vals_window(fib_before, 0, l0),
                            p,
                        )[jt] == vals_window(fib_before, 0, l0)[jt]);
                        assert(vals_window(fib_before, 0, l0)[jt] == fib_before[jt].val());
                        assert(fib_before[jt].val() == m_before.at(a as int, b as int, jt, i4 as int));
                    }
                    assert(col4_axis2_prefix(*m, a as int, b as int, i4 as int, l0) =~= col4_axis2_prefix(
                        m_before,
                        a as int,
                        b as int,
                        i4 as int,
                        l0,
                    ));
                    assert(col4_axis2(*m, a as int, b as int, i4 as int) == codeword_spec(
                        precodes@,
                        postcodes@,
                        col4_axis2_prefix(*m, a as int, b as int, i4 as int, l0),
                        p,
                    ));
                    assert forall|j1: int, j2: int, j3: int, j4: int|
                        0 <= j1 < m.d1 && 0 <= j2 < m.d2 && 0 <= j3 < l0 && 0 <= j4 < d4
                        implies #[trigger] m.at(j1, j2, j3, j4) == m_orig.at(j1, j2, j3, j4) by {
                        if !(j1 == a && j2 == b && j4 == i4) {
                            assert(m.at(j1, j2, j3, j4) == m_before.at(j1, j2, j3, j4));
                        } else {
                            assert(m.at(j1, j2, j3, j4) == m_before.at(j1, j2, j3, j4));
                        }
                    }
                    assert forall|ja: int, jb: int, j4: int|
                        0 <= ja < ea && 0 <= jb < eb && 0 <= j4 < i4 implies #[trigger] col4_axis2(
                        *m,
                        ja,
                        jb,
                        j4,
                    ) == codeword_spec(
                        precodes@,
                        postcodes@,
                        col4_axis2_prefix(*m, ja, jb, j4, l0),
                        p,
                    ) by {
                        assert(col4_axis2(*m, ja, jb, j4) =~= col4_axis2(m_before, ja, jb, j4));
                        assert(col4_axis2_prefix(*m, ja, jb, j4, l0) =~= col4_axis2_prefix(m_before, ja, jb, j4, l0));
                    }
                    assert forall|ja: int, jb: int|
                        0 <= ja < a && 0 <= jb < eb implies #[trigger] col4_axis2(
                        *m,
                        ja,
                        jb,
                        i4 as int,
                    ) == codeword_spec(
                        precodes@,
                        postcodes@,
                        col4_axis2_prefix(*m, ja, jb, i4 as int, l0),
                        p,
                    ) by {
                        assert(col4_axis2(*m, ja, jb, i4 as int) =~= col4_axis2(
                            m_before,
                            ja,
                            jb,
                            i4 as int,
                        ));
                        assert(col4_axis2_prefix(*m, ja, jb, i4 as int, l0) =~= col4_axis2_prefix(
                            m_before,
                            ja,
                            jb,
                            i4 as int,
                            l0,
                        ));
                    }
                    assert forall|jb: int|
                        0 <= jb < b implies #[trigger] col4_axis2(*m, a as int, jb, i4 as int)
                        == codeword_spec(
                        precodes@,
                        postcodes@,
                        col4_axis2_prefix(*m, a as int, jb, i4 as int, l0),
                        p,
                    ) by {
                        assert(col4_axis2(*m, a as int, jb, i4 as int) =~= col4_axis2(
                            m_before,
                            a as int,
                            jb,
                            i4 as int,
                        ));
                        assert(col4_axis2_prefix(*m, a as int, jb, i4 as int, l0) =~= col4_axis2_prefix(
                            m_before,
                            a as int,
                            jb,
                            i4 as int,
                            l0,
                        ));
                    }
                }
                b = b + 1;
            }
            a = a + 1;
        }
        i4 = i4 + 1;
        proof {
            assert forall|ja: int, jb: int, j4: int|
                0 <= ja < ea && 0 <= jb < eb && 0 <= j4 < i4 implies #[trigger] col4_axis2(
                *m,
                ja,
                jb,
                j4,
            ) == codeword_spec(
                precodes@,
                postcodes@,
                col4_axis2_prefix(*m, ja, jb, j4, precodes@[0].cols as int),
                p,
            ) by {
                if j4 == i4 - 1 {
                    assert(col4_axis2(*m, ja, jb, i4 - 1) == codeword_spec(
                        precodes@,
                        postcodes@,
                        col4_axis2_prefix(*m, ja, jb, i4 - 1, precodes@[0].cols as int),
                        p,
                    ));
                }
            }
        }
    }
}


/// The combination over whole third-axis fibers equals the fiber
/// combination, pointwise.
proof fn lemma_combo_is_lc4_row<F: Field>(
    ws_list: Seq<Seq<nat>>,
    m: Tensor4<F>,
    rv: Seq<nat>,
    i1: int,
    i2: int,
    i3: int,
    j: int,
    p: nat,
)
    requires
        ws_list.len() == rv.len(),
        0 <= i3 < m.d3,
        0 <= j <= rv.len(),
        forall|t: int| 0 <= t < rv.len() ==> #[trigger] ws_list[t] == col4_axis2(m, i1, i2, t),
    ensures
        combo_prefix(ws_list, rv, i3, j, p) == lc4_prefix(m, rv, i1, i2, i3, j, p),
    decreases j,
{
    if j > 0 {
        lemma_combo_is_lc4_row(ws_list, m, rv, i1, i2, i3, j - 1, p);
        assert(ws_list[j - 1][i3] == m.at(i1, i2, i3, j - 1));
    }
}

/// The combination over prefixes of third-axis fibers equals the fiber
/// combination on the message block.
proof fn lemma_combo_is_lc4_row_prefix<F: Field>(
    xs_list: Seq<Seq<nat>>,
    m: Tensor4<F>,
    rv: Seq<nat>,
    i1: int,
    i2: int,
    i3: int,
    j: int,
    p: nat,
    l0: int,
)
    requires
        xs_list.len() == rv.len(),
        0 <= i3 < l0,
        0 <= j <= rv.len(),
        forall|t: int|
            0 <= t < rv.len() ==> #[trigger] xs_list[t] == col4_axis2_prefix(m, i1, i2, t, l0),
    ensures
        combo_prefix(xs_list, rv, i3, j, p) == lc4_prefix(m, rv, i1, i2, i3, j, p),
    decreases j,
{
    if j > 0 {
        lemma_combo_is_lc4_row_prefix(xs_list, m, rv, i1, i2, i3, j - 1, p, l0);
        assert(xs_list[j - 1][i3] == m.at(i1, i2, i3, j - 1));
    }
}

/// For an array whose third-axis fibers are codewords, the reduced fiber is
/// consistent with the code at every coordinate.
pub proof fn lemma_lc4_complete<F: Field>(
    pre: Seq<SparseMatrix<F>>,
    post: Seq<SparseMatrix<F>>,
    m0: Tensor4<F>,
    m1: Tensor3<F>,
    rv: Seq<nat>,
    i1: int,
    i2: int,
    p: nat,
)
    requires
        p > 1,
        chain_wf(pre, post),
        m0.wf(),
        m0.d3 == codeword_len_spec(pre, post),
        m0.d4 == rv.len(),
        rv.len() == pre[0].cols,
        encoded_axis2_4(m0, pre, post, p),
        0 <= i1 < m0.d1,
        0 <= i2 < m0.d2,
        m1.wf(),
        m1.d1 == m0.d1,
        m1.d2 == m0.d2,
        m1.d3 == rv.len(),
        forall|i3: int|
            0 <= i3 < m1.d3 ==> #[trigger] m1.at(i1, i2, i3) == lc4_at(m0, rv, i1, i2, i3, p),
    ensures
        forall|i3: int|
            0 <= i3 < m0.d3 ==> #[trigger] codeword_spec(
                pre,
                post,
                fiber3_vals(m1, i1, i2),
                p,
            )[i3] == lc4_at(m0, rv, i1, i2, i3, p),
{
    let l0 = pre[0].cols as nat;
    let nn = (pre[0].cols + post[0].cols + post[0].rows) as nat;
    let xs_list = Seq::new(rv.len(), |t: int| col4_axis2_prefix(m0, i1, i2, t, l0 as int));
    let ws_list = Seq::new(rv.len(), |t: int| col4_axis2(m0, i1, i2, t));
    assert forall|t: int| 0 <= t < ws_list.len() implies #[trigger] ws_list[t] == codeword_spec(
        pre,
        post,
        xs_list[t],
        p,
    ) by {
        assert(col4_axis2(m0, i1, i2, t) == codeword_spec(
            pre,
            post,
            col4_axis2_prefix(m0, i1, i2, t, l0 as int),
            p,
        ));
    }
    lemma_codeword_combo(pre, post, xs_list, ws_list, rv, rv.len() as int, p);
    assert forall|i3: int| 0 <= i3 < l0 implies #[trigger] combo_seq(
        xs_list,
        rv,
        l0,
        rv.len() as int,
        p,
    )[i3] == fiber3_vals(m1, i1, i2)[i3] by {
        lemma_combo_is_lc4_row_prefix(xs_list, m0, rv, i1, i2, i3, rv.len() as int, p, l0 as int);
    }
    assert(combo_seq(xs_list, rv, l0, rv.len() as int, p) =~= fiber3_vals(m1, i1, i2));
    crate::encode::lemma_codeword_spec_len(pre, post, fiber3_vals(m1, i1, i2), p);
    crate::encode::lemma_codeword_len_agree(pre, post, fiber3_vals(m1, i1, i2), p);
    assert forall|i3: int| 0 <= i3 < m0.d3 implies #[trigger] codeword_spec(
        pre,
        post,
        fiber3_vals(m1, i1, i2),
        p,
    )[i3] == lc4_at(m0, rv, i1, i2, i3, p) by {
        lemma_combo_is_lc4_row(ws_list, m0, rv, i1, i2, i3, rv.len() as int, p);
        assert(codeword_spec(pre, post, fiber3_vals(m1, i1, i2), p)[i3] == combo_seq(
            ws_list,
            rv,
            nn,
            rv.len() as int,
            p,
        )[i3]);
    }
}

/// The combination over whole second-axis fibers of a four-dimensional
/// array equals the fiber combination, pointwise.
proof fn lemma_combo_is_lc4_ax1<F: Field>(
    ws_list: Seq<Seq<nat>>,
    m: Tensor4<F>,
    rv: Seq<nat>,
    i1: int,
    i2: int,
    i3: int,
    j: int,
    p: nat,
)
    requires
        ws_list.len() == rv.len(),
        0 <= i2 < m.d2,
        0 <= j <= rv.len(),
        forall|t: int| 0 <= t < rv.len() ==> #[trigger] ws_list[t] == col4_axis1(m, i1, i3, t),
    ensures
        combo_prefix(ws_list, rv, i2, j, p) == lc4_prefix(m, rv, i1, i2, i3, j, p),
    decreases j,
{
    if j > 0 {
        lemma_combo_is_lc4_ax1(ws_list, m, rv, i1, i2, i3, j - 1, p);
        assert(ws_list[j - 1][i2] == m.at(i1, i2, i3, j - 1));
    }
}

/// The combination over prefixes of second-axis fibers equals the fiber
/// combination on the message block.
proof fn lemma_combo_is_lc4_ax1_prefix<F: Field>(
    xs_list: Seq<Seq<nat>>,
    m: Tensor4<F>,
    rv: Seq<nat>,
    i1: int,
    i2: int,
    i3: int,
    j: int,
    p: nat,
    l0: int,
)
    requires
        xs_list.len() == rv.len(),
        0 <= i2 < l0,
        0 <= j <= rv.len(),
        forall|t: int|
            0 <= t < rv.len() ==> #[trigger] xs_list[t] == col4_axis1_prefix(m, i1, i3, t, l0),
    ensures
        combo_prefix(xs_list, rv, i2, j, p) == lc4_prefix(m, rv, i1, i2, i3, j, p),
    decreases j,
{
    if j > 0 {
        lemma_combo_is_lc4_ax1_prefix(xs_list, m, rv, i1, i2, i3, j - 1, p, l0);
        assert(xs_list[j - 1][i2] == m.at(i1, i2, i3, j - 1));
    }
}

/// The reduction of an array whose second-axis fibers are codewords has
/// codeword second-axis fibers itself.
pub proof fn lemma_m1_axis1_3<F: Field>(
    pre: Seq<SparseMatrix<F>>,
    post: Seq<SparseMatrix<F>>,
    m0: Tensor4<F>,
    m1: Tensor3<F>,
    rv: Seq<nat>,
    p: nat,
)
    requires
        p > 1,
        chain_wf(pre, post),
        m0.wf(),
        m0.d2 == codeword_len_spec(pre, post),
        m0.d4 == rv.len(),
        rv.len() == pre[0].cols,
        encoded_axis1_4(m0, pre, post, m1.d3 as int, p),
        m1.wf(),
        m1.d1 == m0.d1,
        m1.d2 == m0.d2,
        m1.d3 <= m0.d3,
        pre[0].cols <= m1.d2,
        forall|i1: int, i2: int, i3: int|
            0 <= i1 < m1.d1 && 0 <= i2 < m1.d2 && 0 <= i3 < m1.d3 ==> #[trigger] m1.at(
                i1,
                i2,
                i3,
            ) == lc4_at(m0, rv, i1, i2, i3, p),
    ensures
        encoded_axis1_3(m1, pre, post, p),
{
    let l0 = pre[0].cols as nat;
    let nn = (pre[0].cols + post[0].cols + post[0].rows) as nat;
    assert forall|i1: int, i3: int|
        0 <= i1 < m1.d1 && 0 <= i3 < m1.d3 implies #[trigger] col3_axis1(m1, i1, i3)
        == codeword_spec(pre, post, col3_axis1_prefix(m1, i1, i3, l0 as int), p) by {
        let xs_list = Seq::new(rv.len(), |t: int| col4_axis1_prefix(m0, i1, i3, t, l0 as int));
        let ws_list = Seq::new(rv.len(), |t: int| col4_axis1(m0, i1, i3, t));
        assert forall|t: int| 0 <= t < ws_list.len() implies #[trigger] ws_list[t]
            == codeword_spec(pre, post, xs_list[t], p) by {
            assert(col4_axis1(m0, i1, i3, t) == codeword_spec(
                pre,
                post,
                col4_axis1_prefix(m0, i1, i3, t, l0 as int),
                p,
            ));
        }
        lemma_codeword_combo(pre, post, xs_list, ws_list, rv, rv.len() as int, p);
        crate::encode::lemma_codeword_spec_len(
            pre,
            post,
            col3_axis1_prefix(m1, i1, i3, l0 as int),
            p,
        );
        crate::encode::lemma_codeword_len_agree(
            pre,
            post,
            col3_axis1_prefix(m1, i1, i3, l0 as int),
            p,
        );
        assert forall|i2: int| 0 <= i2 < l0 implies #[trigger] combo_seq(
            xs_list,
            rv,
            l0,
            rv.len() as int,
            p,
        )[i2] == col3_axis1_prefix(m1, i1, i3, l0 as int)[i2] by {
            lemma_combo_is_lc4_ax1_prefix(
                xs_list,
                m0,
                rv,
                i1,
                i2,
                i3,
                rv.len() as int,
                p,
                l0 as int,
            );
            assert(m1.at(i1, i2, i3) == lc4_at(m0, rv, i1, i2, i3, p));
        }
        assert(combo_seq(xs_list, rv, l0, rv.len() as int, p) =~= col3_axis1_prefix(
            m1,
            i1,
            i3,
            l0 as int,
        ));
        assert forall|i2: int| 0 <= i2 < m1.d2 implies #[trigger] col3_axis1(m1, i1, i3)[i2]
            == combo_seq(ws_list, rv, nn, rv.len() as int, p)[i2] by {
            lemma_combo_is_lc4_ax1(ws_list, m0, rv, i1, i2, i3, rv.len() as int, p);
            assert(m1.at(i1, i2, i3) == lc4_at(m0, rv, i1, i2, i3, p));
            assert(col3_axis1(m1, i1, i3)[i2] == m1.at(i1, i2, i3));
        }
        assert(col3_axis1(m1, i1, i3) =~= codeword_spec(
            pre,
            post,
            col3_axis1_prefix(m1, i1, i3, l0 as int),
            p,
        ));
    }
}

/// The combination over whole first-axis fibers of a four-dimensional
/// array equals the fiber combination, pointwise.
proof fn lemma_combo_is_lc4_ax0<F: Field>(
    ws_list: Seq<Seq<nat>>,
    m: Tensor4<F>,
    rv: Seq<nat>,
    i1: int,
    i2: int,
    i3: int,
    j: int,
    p: nat,
)
    requires
        ws_list.len() == rv.len(),
        0 <= i1 < m.d1,
        0 <= j <= rv.len(),
        forall|t: int| 0 <= t < rv.len() ==> #[trigger] ws_list[t] == col4_axis0(m, i2, i3, t),
    ensures
        combo_prefix(ws_list, rv, i1, j, p) == lc4_prefix(m, rv, i1, i2, i3, j, p),
    decreases j,
{
    if j > 0 {
        lemma_combo_is_lc4_ax0(ws_list, m, rv, i1, i2, i3, j - 1, p);
        assert(ws_list[j - 1][i1] == m.at(i1, i2, i3, j - 1));
    }
}

/// The combination over prefixes of first-axis fibers equals the fiber
/// combination on the message block.
proof fn lemma_combo_is_lc4_ax0_prefix<F: Field>(
    xs_list: Seq<Seq<nat>>,
    m: Tensor4<F>,
    rv: Seq<nat>,
    i1: int,
    i2: int,
    i3: int,
    j: int,
    p: nat,
    l0: int,
)
    requires
        xs_list.len() == rv.len(),
        0 <= i1 < l0,
        0 <= j <= rv.len(),
        forall|t: int|
            0 <= t < rv.len() ==> #[trigger] xs_list[t] == col4_axis0_prefix(m, i2, i3, t, l0),
    ensures
        combo_prefix(xs_list, rv, i1, j, p) == lc4_prefix(m, rv, i1, i2, i3, j, p),
    decreases j,
{
    if j > 0 {
        lemma_combo_is_lc4_ax0_prefix(xs_list, m, rv, i1, i2, i3, j - 1, p, l0);
        assert(xs_list[j - 1][i1] == m.at(i1, i2, i3, j - 1));
    }
}

/// The reduction of an array whose first-axis fibers are codewords has
/// codeword first-axis fibers itself.
pub proof fn lemma_m1_axis0_3<F: Field>(
    pre: Seq<SparseMatrix<F>>,
    post: Seq<SparseMatrix<F>>,
    m0: Tensor4<F>,
    m1: Tensor3<F>,
    rv: Seq<nat>,
    p: nat,
)
    requires
        p > 1,
        chain_wf(pre, post),
        m0.wf(),
        m0.d1 == codeword_len_spec(pre, post),
        m0.d4 == rv.len(),
        rv.len() == pre[0].cols,
        encoded_axis0_4(m0, pre, post, pre[0].cols as int, m1.d3 as int, p),
        m1.wf(),
        m1.d1 == m0.d1,
        m1.d2 == m0.d2,
        m1.d3 <= m0.d3,
        pre[0].cols <= m1.d1,
        pre[0].cols <= m1.d2,
        forall|i1: int, i2: int, i3: int|
            0 <= i1 < m1.d1 && 0 <= i2 < m1.d2 && 0 <= i3 < m1.d3 ==> #[trigger] m1.at(
                i1,
                i2,
                i3,
            ) == lc4_at(m0, rv, i1, i2, i3, p),
    ensures
        encoded_axis0_3(m1, pre, post, pre[0].cols as int, p),
{
    let l0 = pre[0].cols as nat;
    let nn = (pre[0].cols + post[0].cols + post[0].rows) as nat;
    assert forall|i2: int, i3: int|
        0 <= i2 < l0 && 0 <= i3 < m1.d3 implies #[trigger] col3_axis0(m1, i2, i3)
        == codeword_spec(pre, post, col3_axis0_prefix(m1, i2, i3, l0 as int), p) by {
        let xs_list = Seq::new(rv.len(), |t: int| col4_axis0_prefix(m0, i2, i3, t, l0 as int));
        let ws_list = Seq::new(rv.len(), |t: int| col4_axis0(m0, i2, i3, t));
        assert forall|t: int| 0 <= t < ws_list.len() implies #[trigger] ws_list[t]
            == codeword_spec(pre, post, xs_list[t], p) by {
            assert(col4_axis0(m0, i2, i3, t) == codeword_spec(
                pre,
                post,
                col4_axis0_prefix(m0, i2, i3, t, l0 as int),
                p,
            ));
        }
        lemma_codeword_combo(pre, post, xs_list, ws_list, rv, rv.len() as int, p);
        crate::encode::lemma_codeword_spec_len(
            pre,
            post,
            col3_axis0_prefix(m1, i2, i3, l0 as int),
            p,
        );
        crate::encode::lemma_codeword_len_agree(
            pre,
            post,
            col3_axis0_prefix(m1, i2, i3, l0 as int),
            p,
        );
        assert forall|i1: int| 0 <= i1 < l0 implies #[trigger] combo_seq(
            xs_list,
            rv,
            l0,
            rv.len() as int,
            p,
        )[i1] == col3_axis0_prefix(m1, i2, i3, l0 as int)[i1] by {
            lemma_combo_is_lc4_ax0_prefix(
                xs_list,
                m0,
                rv,
                i1,
                i2,
                i3,
                rv.len() as int,
                p,
                l0 as int,
            );
            assert(m1.at(i1, i2, i3) == lc4_at(m0, rv, i1, i2, i3, p));
        }
        assert(combo_seq(xs_list, rv, l0, rv.len() as int, p) =~= col3_axis0_prefix(
            m1,
            i2,
            i3,
            l0 as int,
        ));
        assert forall|i1: int| 0 <= i1 < m1.d1 implies #[trigger] col3_axis0(m1, i2, i3)[i1]
            == combo_seq(ws_list, rv, nn, rv.len() as int, p)[i1] by {
            lemma_combo_is_lc4_ax0(ws_list, m0, rv, i1, i2, i3, rv.len() as int, p);
            assert(m1.at(i1, i2, i3) == lc4_at(m0, rv, i1, i2, i3, p));
            assert(col3_axis0(m1, i2, i3)[i1] == m1.at(i1, i2, i3));
        }
        assert(col3_axis0(m1, i2, i3) =~= codeword_spec(
            pre,
            post,
            col3_axis0_prefix(m1, i2, i3, l0 as int),
            p,
        ));
    }
}

/// One full honest round of the four-dimensional protocol: a random
/// `code_len^3 x msg_len` array is encoded along its first three axes,
/// reduced three times with fresh random coefficients, committed level by
/// level, and spot-checked at `test_no` random coordinate triples.  Returns
/// true exactly when the sizes are compatible: a misconfiguration aborts
/// the round before any work, and every check of an honest round passes.
#[verifier::rlimit(100)]
#[verifier::spinoff_prover]
pub fn commit_4_dim<F: Field>(
    coef_no: usize,
    msg_len: usize,
    code_len: usize,
    seed: u64,
    test_no: usize,
    cs: CodeSpec,
) -> (all_ok: bool)
    requires
        cs.wf(),
        1 <= msg_len < 0x10000,
        code_len * code_len * code_len <= 0x2000_0000,
        code_len * code_len * code_len * msg_len <= usize::MAX,
    ensures
        all_ok == (sizes_ok(msg_len as nat, cs) && code_len == target_len(msg_len as nat, cs)),
{
    let ghost p = F::modulus();
    proof {
        F::lemma_modulus();
    }
    let chain = generate::<F>(msg_len, seed, cs);
    let (precodes, postcodes) = match chain {
        Some(c) => c,
        None => {
            return false;
        },
    };
    proof {
        lemma_generated_chain_wf(precodes@, postcodes@, msg_len as nat, seed, cs);
        crate::codegen::lemma_target_ge(msg_len as nat, cs);
        crate::codegen::lemma_target_fits(msg_len as nat, cs);
    }
    let clen = crate::encode::codeword_length(&precodes, &postcodes);
    if clen != code_len {
        return false;
    }
    proof {
        assert(code_len <= code_len * code_len && code_len * code_len <= code_len * code_len
            * code_len && code_len * code_len * code_len <= code_len * code_len * code_len
            * msg_len && (code_len * code_len) * code_len == code_len * code_len * code_len)
            by (nonlinear_arith)
            requires
                code_len >= 1,
                msg_len >= 1,
        ;
    }
    let mut m0: Tensor4<F> = Tensor4::zero(code_len, code_len, code_len, msg_len);
    let mut fi: usize = 0;
    while fi < code_len
        invariant
            fi <= code_len,
            m0.wf(),
            m0.d1 == code_len,
            m0.d2 == code_len,
            m0.d3 == code_len,
            m0.d4 == msg_len,
        decreases code_len - fi,
    {
        let mut fj: usize = 0;
        while fj < code_len
            invariant
                fj <= code_len,
                fi < code_len,
                m0.wf(),
                m0.d1 == code_len,
                m0.d2 == code_len,
                m0.d3 == code_len,
                m0.d4 == msg_len,
            decreases code_len - fj,
        {
            let mut fk: usize = 0;
            while fk < code_len
                invariant
                    fk <= code_len,
                    fi < code_len,
                    fj < code_len,
                    m0.wf(),
                    m0.d1 == code_len,
                    m0.d2 == code_len,
                    m0.d3 == code_len,
                    m0.d4 == msg_len,
                decreases code_len - fk,
            {
                let mut fl: usize = 0;
                while fl < msg_len
                    invariant
                        fl <= msg_len,
                        fi < code_len,
                        fj < code_len,
                        fk < code_len,
                        m0.wf(),
                        m0.d1 == code_len,
                        m0.d2 == code_len,
                        m0.d3 == code_len,
                        m0.d4 == msg_len,
                    decreases msg_len - fl,
                {
                    m0.set(fi, fj, fk, fl, F::from_word(random_word()));
                    fl = fl + 1;
                }
                fk = fk + 1;
            }
            fj = fj + 1;
        }
        fi = fi + 1;
    }
    // encode along the three leading axes; each later pass leaves the
    // earlier passes' message blocks untouched (the code is systematic)
    encode_axis0_4d(&mut m0, msg_len, &precodes, &postcodes);
    let ghost m0_after0 = m0;
    encode_axis1_4d(&mut m0, msg_len, &precodes, &postcodes);
    let ghost m0_after1 = m0;
    proof {
        let l0 = precodes@[0].cols as int;
        assert forall|j2: int, j3: int, j4: int|
            0 <= j2 < l0 && 0 <= j3 < l0 && 0 <= j4 < m0.d4 implies #[trigger] col4_axis0(
            m0,
            j2,
            j3,
            j4,
        ) == codeword_spec(precodes@, postcodes@, col4_axis0_prefix(m0, j2, j3, j4, l0), p) by {
            assert(col4_axis0(m0, j2, j3, j4) =~= col4_axis0(m0_after0, j2, j3, j4));
            assert(col4_axis0_prefix(m0, j2, j3, j4, l0) =~= col4_axis0_prefix(
                m0_after0,
                j2,
                j3,
                j4,
                l0,
            ));
        }
        assert(encoded_axis0_4(m0, precodes@, postcodes@, l0, l0, p));
    }
    encode_axis2_4d(&mut m0, msg_len, &precodes, &postcodes);
    proof {
        let l0 = precodes@[0].cols as int;
        assert forall|j2: int, j3: int, j4: int|
            0 <= j2 < l0 && 0 <= j3 < l0 && 0 <= j4 < m0.d4 implies #[trigger] col4_axis0(
            m0,
            j2,
            j3,
            j4,
        ) == codeword_spec(precodes@, postcodes@, col4_axis0_prefix(m0, j2, j3, j4, l0), p) by {
            assert(col4_axis0(m0, j2, j3, j4) =~= col4_axis0(m0_after1, j2, j3, j4));
            assert(col4_axis0_prefix(m0, j2, j3, j4, l0) =~= col4_axis0_prefix(
                m0_after1,
                j2,
                j3,
                j4,
                l0,
            ));
        }
        assert(encoded_axis0_4(m0, precodes@, postcodes@, l0, l0, p));
        assert forall|j1: int, j3: int, j4: int|
            0 <= j1 < m0.d1 && 0 <= j3 < l0 && 0 <= j4 < m0.d4 implies #[trigger] col4_axis1(
            m0,
            j1,
            j3,
            j4,
        ) == codeword_spec(precodes@, postcodes@, col4_axis1_prefix(m0, j1, j3, j4, l0), p) by {
            assert(col4_axis1(m0, j1, j3, j4) =~= col4_axis1(m0_after1, j1, j3, j4));
            assert(col4_axis1_prefix(m0, j1, j3, j4, l0) =~= col4_axis1_prefix(
                m0_after1,
                j1,
                j3,
                j4,
                l0,
            ));
        }
        assert(encoded_axis1_4(m0, precodes@, postcodes@, l0, p));
    }
    let r1 = random_coeffs_from_length::<F>(msg_len);
    let r2 = random_coeffs_from_length::<F>(msg_len);
    let r3 = random_coeffs_from_length::<F>(msg_len);
    let m1 = linear_combination_4_3(msg_len, code_len, &m0, &r1);
    let m2 = linear_combination_3_2(msg_len, code_len, &m1, &r2);
    let m3 = linear_combination_2_1(msg_len, code_len, &m2, &r3);
    proof {
        lemma_m1_axis1_3(precodes@, postcodes@, m0, m1, vals_of(r1@), p);
        lemma_m1_axis0_3(precodes@, postcodes@, m0, m1, vals_of(r1@), p);
        lemma_m1_encoded_cols2(precodes@, postcodes@, m1, m2, vals_of(r2@), p);
    }
    let hashes_m0 = merkle_tree_commit_4d(msg_len, code_len, &m0);
    let hashes_m1 = merkle_tree_commit_3d(msg_len, code_len, &m1);
    let hashes_m2 = merkle_tree_commit_2d(msg_len, code_len, &m2);
    let np2v4 = next_pow_2(code_len * code_len * code_len);
    let np2v3 = next_pow_2(code_len * code_len);
    let np2v2 = next_pow_2(code_len);
    let root0 = copy_hash(&hashes_m0, 0);
    let root1 = copy_hash(&hashes_m1, 0);
    let root2 = copy_hash(&hashes_m2, 0);
    let mut m0_map = PartialTree::new(root0, hashes_m0.len());
    let mut m1_map = PartialTree::new(root1, hashes_m1.len());
    let mut m2_map = PartialTree::new(root2, hashes_m2.len());
    let ghost t0 = views_of(hashes_m0@);
    let ghost t1 = views_of(hashes_m1@);
    let ghost t2 = views_of(hashes_m2@);
    proof {
        assert(t0[0] == hashes_m0@[0]@);
        assert(map_agrees(m0_map@, t0));
        assert(t1[0] == hashes_m1@[0]@);
        assert(map_agrees(m1_map@, t1));
        assert(t2[0] == hashes_m2@[0]@);
        assert(map_agrees(m2_map@, t2));
    }
    let mut q: usize = 0;
    while q < test_no
        invariant
            q <= test_no,
            p == F::modulus(),
            p > 1,
            chain_wf(precodes@, postcodes@),
            precodes@[0].cols == msg_len,
            codeword_len_spec(precodes@, postcodes@) == code_len,
            1 <= msg_len <= code_len,
            code_len * code_len * code_len <= 0x2000_0000,
            code_len <= code_len * code_len,
            code_len * code_len <= code_len * code_len * code_len,
            m0.wf(),
            m0.d1 == code_len,
            m0.d2 == code_len,
            m0.d3 == code_len,
            m0.d4 == msg_len,
            encoded_axis2_4(m0, precodes@, postcodes@, p),
            r1@.len() == msg_len,
            all_inv(r1@),
            r2@.len() == msg_len,
            all_inv(r2@),
            r3@.len() == msg_len,
            all_inv(r3@),
            m1.wf(),
            m1.d1 == code_len,
            m1.d2 == code_len,
            m1.d3 == msg_len,
            forall|i1: int, i2: int, i3: int|
                0 <= i1 < code_len && 0 <= i2 < code_len && 0 <= i3 < msg_len
                    ==> #[trigger] m1.at(i1, i2, i3) == lc4_at(m0, vals_of(r1@), i1, i2, i3, p),
            encoded_axis1_3(m1, precodes@, postcodes@, p),
            m2.wf(),
            m2.d1 == code_len,
            m2.d2 == msg_len,
            forall|i1: int, i2: int|
                0 <= i1 < code_len && 0 <= i2 < msg_len ==> #[trigger] m2.at(i1, i2) == lc3_at(
                    m1,
                    vals_of(r2@),
                    i1,
                    i2,
                    p,
                ),
            encoded_cols2(m2, precodes@, postcodes@, p),
            m3@.len() == msg_len,
            all_inv(m3@),
            forall|i: int|
                0 <= i < msg_len ==> (#[trigger] m3@[i]).val() == lc2_at(m2, vals_of(r3@), i, p),
            np2v4 == np2((code_len * code_len * code_len) as nat),
            code_len * code_len * code_len <= np2v4 <= 0x4000_0000,
            np2v3 == np2((code_len * code_len) as nat),
            code_len * code_len <= np2v3 <= 0x4000_0000,
            np2v2 == np2(code_len as nat),
            code_len <= np2v2 <= 0x4000_0000,
            t0 == views_of(hashes_m0@),
            hashes_m0@.len() == 2 * np2v4 - 1,
            tree_linked(t0),
            forall|i1: int, i2: int, i3: int|
                0 <= i1 < code_len && 0 <= i2 < code_len && 0 <= i3 < code_len
                    ==> (#[trigger] hashes_m0@[np2v4 - 1 + i1 + i2 * code_len + i3 * (code_len
                    * code_len)])@ == crate::hash::digest_of(
                    reprs_cat(crate::merkle::fiber4_vals(m0, i1, i2, i3), F::repr_len()),
                ),
            m0_map.size() == hashes_m0@.len(),
            map_agrees(m0_map@, t0),
            m0_map@.contains_key(0),
            t1 == views_of(hashes_m1@),
            hashes_m1@.len() == 2 * np2v3 - 1,
            tree_linked(t1),
            forall|i1: int, i2: int|
                0 <= i1 < code_len && 0 <= i2 < code_len ==> (#[trigger] hashes_m1@[np2v3 - 1 + i1
                    + i2 * code_len])@ == crate::hash::digest_of(
                    reprs_cat(fiber3_vals(m1, i1, i2), F::repr_len()),
                ),
            m1_map.size() == hashes_m1@.len(),
            map_agrees(m1_map@, t1),
            m1_map@.contains_key(0),
            t2 == views_of(hashes_m2@),
            hashes_m2@.len() == 2 * np2v2 - 1,
            tree_linked(t2),
            forall|i1: int|
                0 <= i1 < code_len ==> (#[trigger] hashes_m2@[np2v2 - 1 + i1])@
                    == crate::hash::digest_of(reprs_cat(row2_vals(m2, i1), F::repr_len())),
            m2_map.size() == hashes_m2@.len(),
            map_agrees(m2_map@, t2),
            m2_map@.contains_key(0),
        decreases test_no - q,
    {
        let i1 = sample_index(code_len);
        let i2 = sample_index(code_len);
        let i3 = sample_index(code_len);
        // consistency of the outermost reduction
        let ok_a = check_linear_combination_4_3(
            msg_len,
            code_len,
            &m0,
            &m1,
            &r1,
            &precodes,
            &postcodes,
            i1,
            i2,
            i3,
        );
        proof {
            lemma_lc4_complete(
                precodes@,
                postcodes@,
                m0,
                m1,
                vals_of(r1@),
                i1 as int,
                i2 as int,
                p,
            );
        }
        if !ok_a {
            proof {
                assert(false);
            }
            return false;
        }
        // consistency of the middle reduction
        let ok_b = check_linear_combination_3_2(
            msg_len,
            code_len,
            &m1,
            &m2,
            &r2,
            &precodes,
            &postcodes,
            i1,
            i2,
        );
        proof {
            lemma_lc3_complete(
                precodes@,
                postcodes@,
                m1,
                m2,
                vals_of(r2@),
                i1 as int,
                p,
            );
        }
        if !ok_b {
            proof {
                assert(false);
            }
            return false;
        }
        // consistency of the innermost reduction
        let ok_c = check_linear_combination_2_1(
            msg_len,
            code_len,
            &m2,
            &m3,
            &r3,
            &precodes,
            &postcodes,
            i1,
        );
        proof {
            lemma_lc2_complete(precodes@, postcodes@, m2, vals_of(r3@), vals_of(m3@), p);
            assert(vals_of(m3@) =~= Seq::new(msg_len as nat, |i: int| m3@[i].val()));
        }
        if !ok_c {
            proof {
                assert(false);
            }
            return false;
        }
        // the Merkle paths for the three committed levels
        let leaf0 = leaf_hash_4d(&m0, i1, i2, i3);
        proof {
            lemma_leaf_index_4d(code_len as int, i1 as int, i2 as int, i3 as int);
            assert((code_len * code_len) * i3 as int <= (code_len * code_len) * (code_len - 1))
                by (nonlinear_arith)
                requires
                    0 <= i3 < code_len,
                    code_len >= 1,
            ;
        }
        let sq = code_len * code_len;
        let idx0 = np2v4 - 1 + i1 + i2 * code_len + i3 * sq;
        proof {
            assert(t0[idx0 as int] == hashes_m0@[np2v4 - 1 + i1 as int + i2 as int * code_len
                + i3 as int * (code_len * code_len)]@);
            assert(leaf0@ == t0[idx0 as int]);
            lemma_climb_complete(t0, idx0 as int, m0_map@);
        }
        let okm0 = check_merkle_path(leaf0, idx0, &mut m0_map, &hashes_m0);
        if !okm0 {
            proof {
                assert(false);
            }
            return false;
        }
        let leaf1 = leaf_hash_3d(&m1, i1, i2);
        proof {
            lemma_leaf_index_3d(code_len as int, i1 as int, i2 as int);
        }
        let idx1 = np2v3 - 1 + i1 + i2 * code_len;
        proof {
            assert(t1[idx1 as int] == hashes_m1@[np2v3 - 1 + i1 as int + i2 as int * code_len]@);
            assert(leaf1@ == t1[idx1 as int]);
            lemma_climb_complete(t1, idx1 as int, m1_map@);
        }
        let okm1 = check_merkle_path(leaf1, idx1, &mut m1_map, &hashes_m1);
        if !okm1 {
            proof {
                assert(false);
            }
            return false;
        }
        let leaf2 = leaf_hash_2d(&m2, i1);
        let idx2 = np2v2 - 1 + i1;
        proof {
            assert(t2[idx2 as int] == hashes_m2@[np2v2 - 1 + i1 as int]@);
            assert(leaf2@ == t2[idx2 as int]);
            lemma_climb_complete(t2, idx2 as int, m2_map@);
        }
        let okm2 = check_merkle_path(leaf2, idx2, &mut m2_map, &hashes_m2);
        if !okm2 {
            proof {
                assert(false);
            }
            return false;
        }
        q = q + 1;
    }
    true
}

} // verus!
