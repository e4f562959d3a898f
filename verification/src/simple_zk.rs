//! The blinded ("simple zero-knowledge") variant of the protocol.
//!
//! To keep opened rows from revealing codeword entries, the prover doubles
//! each codeword: the committed column holds `w + e` in its first half and
//! the blinding values `e` in its second, for fresh random `e`.  The
//! verifier reconstructs the unblinded message as the difference of the two
//! halves, encodes it, and adds the blinding back before comparing against
//! the opened combination.

use crate::codegen::{generate, sizes_ok, target_len};
use crate::codespec::CodeSpec;
use crate::commit::{lc2_at, lc2_row, lc3_at, lc3_fiber, lemma_generated_chain_wf};
use crate::encode::{chain_wf, codeword_len_spec, codeword_spec, encode};
use crate::field::Field;
use crate::merkle::{
    check_merkle_path, leaf_hash_2d, merkle_tree_commit_2d, next_pow_2, np2, PartialTree,
};
use crate::rng::{random_word, sample_index};
use crate::sparse::{all_inv, vals_of, vals_window, SparseMatrix};
use crate::tensor::{Tensor2, Tensor3};
use vstd::prelude::*;

verus! {

use vstd::arithmetic::div_mod::{
    lemma_add_mod_noop, lemma_mod_add_multiples_vanish, lemma_mod_twice, lemma_mul_mod_noop_right,
    lemma_small_mod,
};

/// Folding a reduced term into a sum commutes with the outer reduction.
proof fn lemma_mod_fold(u: int, v: int, p: int)
    requires
        p > 0,
    ensures
        (u % p + v) % p == (u + v) % p,
{
    lemma_mod_twice(u, p);
    lemma_add_mod_noop(u % p, v, p);
    lemma_add_mod_noop(u, v, p);
}

/// One accumulation step on a blinded difference: combining the reduced
/// differences step by step equals the difference of the two combinations.
proof fn lemma_sub_acc(a: int, b: int, x: int, y: int, v: int, p: int)
    requires
        p > 0,
        0 <= a,
        0 <= b,
        0 <= x,
        0 <= y,
        0 <= v,
    ensures
        ((a + p - b) % p + v * ((x + p - y) % p)) % p == ((a + v * x) % p + p - (b + v * y) % p)
            % p,
{
    let k = a - b + v * x - v * y;
    // the left side reduces to k % p
    let t = v * ((x + p - y) % p);
    lemma_mod_fold(a + p - b, t, p);
    lemma_mul_mod_noop_right(v, x + p - y, p);
    lemma_add_mod_noop_right_local(a + p - b, t, v * (x + p - y), p);
    assert(a + p - b + v * (x + p - y) == p * (1 + v) + k) by (nonlinear_arith)
        requires
            k == a - b + v * x - v * y,
    ;
    vstd::arithmetic::div_mod::lemma_mod_multiples_vanish(1 + v, k, p);
    // and so does the right side
    let bq = (b + v * y) / p;
    let br = (b + v * y) % p;
    vstd::arithmetic::div_mod::lemma_fundamental_div_mod(b + v * y, p);
    vstd::arithmetic::div_mod::lemma_mod_bound(b + v * y, p);
    lemma_mod_fold(a + v * x, p - br, p);
    assert(a + v * x + p - br == p * (1 + bq) + k) by (nonlinear_arith)
        requires
            b + v * y == p * bq + br,
            k == a - b + v * x - v * y,
    ;
    vstd::arithmetic::div_mod::lemma_mod_multiples_vanish(1 + bq, k, p);
}

/// A reduced term keeps its reduction when folded on the right.
proof fn lemma_add_mod_noop_right_local(u: int, t: int, t_full: int, p: int)
    requires
        p > 0,
        t % p == t_full % p,
    ensures
        (u + t) % p == (u + t_full) % p,
{
    lemma_add_mod_noop(u, t, p);
    lemma_add_mod_noop(u, t_full, p);
}

/// What the verifier reconstructs from an opened blinded vector: the
/// difference of the halves, re-encoded, with the blinding added back on
/// the first half and the blinding itself as the second half.
pub open spec fn zk_reconstruct<F: Field>(
    pre: Seq<SparseMatrix<F>>,
    post: Seq<SparseMatrix<F>>,
    m1dv: Seq<nat>,
    code_len: int,
    p: nat,
) -> Seq<nat> {
    let diff = Seq::new(
        pre[0].cols as nat,
        |i: int| ((m1dv[i] + p - m1dv[i + code_len]) as nat) % p,
    );
    let w = codeword_spec(pre, post, diff, p);
    Seq::new(
        (2 * code_len) as nat,
        |i: int|
            if i < code_len {
                (w[i] + m1dv[i + code_len]) % p
            } else {
                m1dv[i]
            },
    )
}

/// Reduce the blinded two-dimensional array along its last axis, over all
/// `2 * code_len` rows.
pub fn linear_combination_2_1_simple_zk<F: Field>(
    msg_len: usize,
    code_len: usize,
    m_2d: &Tensor2<F>,
    r: &Vec<F>,
) -> (res: Vec<F>)
    requires
        m_2d.wf(),
        m_2d.d1 == 2 * code_len,
        m_2d.d2 == msg_len,
        r@.len() == msg_len,
        all_inv(r@),
    ensures
        res@.len() == 2 * code_len,
        all_inv(res@),
        forall|i1: int|
            0 <= i1 < 2 * code_len ==> (#[trigger] res@[i1]).val() == lc2_at(
                *m_2d,
                vals_of(r@),
                i1,
                F::modulus(),
            ),
{
    let ghost p = F::modulus();
    let ghost rv = vals_of(r@);
    let code_len2 = 2 * code_len;
    let mut res: Vec<F> = Vec::new();
    let mut i1: usize = 0;
    while i1 < code_len2
        invariant
            i1 <= code_len2,
            code_len2 == 2 * code_len,
            m_2d.wf(),
            m_2d.d1 == code_len2,
            m_2d.d2 == msg_len,
            r@.len() == msg_len,
            all_inv(r@),
            p == F::modulus(),
            rv == vals_of(r@),
            res@.len() == i1,
            all_inv(res@),
            forall|t: int| 0 <= t < i1 ==> (#[trigger] res@[t]).val() == lc2_at(*m_2d, rv, t, p),
        decreases code_len2 - i1,
    {
        let s = lc2_row(msg_len, m_2d, r, i1);
        res.push(s);
        i1 = i1 + 1;
    }
    res
}

/// Reduce a blinded three-dimensional array along its last axis, over all
/// `2 * code_len` positions of both leading axes.
pub fn linear_combination_3_2_simple_zk<F: Field>(
    msg_len: usize,
    code_len: usize,
    m_3d: &Tensor3<F>,
    r: &Vec<F>,
) -> (res: Tensor2<F>)
    requires
        m_3d.wf(),
        m_3d.d1 == 2 * code_len,
        m_3d.d2 == 2 * code_len,
        m_3d.d3 == msg_len,
        r@.len() == msg_len,
        all_inv(r@),
    ensures
        res.wf(),
        res.d1 == 2 * code_len,
        res.d2 == 2 * code_len,
        forall|i1: int, i2: int|
            0 <= i1 < 2 * code_len && 0 <= i2 < 2 * code_len ==> #[trigger] res.at(i1, i2)
                == lc3_at(*m_3d, vals_of(r@), i1, i2, F::modulus()),
{
    let ghost p = F::modulus();
    let ghost rv = vals_of(r@);
    let code_len2 = 2 * code_len;
    proof {
        assert(m_3d.d1 * m_3d.d2 <= usize::MAX);
    }
    let mut res: Tensor2<F> = Tensor2::zero(code_len2, code_len2);
    let mut i1: usize = 0;
    while i1 < code_len2
        invariant
            i1 <= code_len2,
            code_len2 == 2 * code_len,
            m_3d.wf(),
            m_3d.d1 == code_len2,
            m_3d.d2 == code_len2,
            m_3d.d3 == msg_len,
            r@.len() == msg_len,
            all_inv(r@),
            p == F::modulus(),
            rv == vals_of(r@),
            res.wf(),
            res.d1 == code_len2,
            res.d2 == code_len2,
            forall|j1: int, j2: int|
                0 <= j1 < i1 && 0 <= j2 < code_len2 ==> #[trigger] res.at(j1, j2) == lc3_at(
                    *m_3d,
                    rv,
                    j1,
                    j2,
                    p,
                ),
        decreases code_len2 - i1,
    {
        let mut i2: usize = 0;
        while i2 < code_len2
            invariant
                i2 <= code_len2,
                i1 < code_len2,
                code_len2 == 2 * code_len,
                m_3d.wf(),
                m_3d.d1 == code_len2,
                m_3d.d2 == code_len2,
                m_3d.d3 == msg_len,
                r@.len() == msg_len,
                all_inv(r@),
                p == F::modulus(),
                rv == vals_of(r@),
                res.wf(),
                res.d1 == code_len2,
                res.d2 == code_len2,
                forall|j1: int, j2: int|
                    0 <= j1 < i1 && 0 <= j2 < code_len2 ==> #[trigger] res.at(j1, j2) == lc3_at(
                        *m_3d,
                        rv,
                        j1,
                        j2,
                        p,
                    ),
                forall|j2: int|
                    0 <= j2 < i2 ==> #[trigger] res.at(i1 as int, j2) == lc3_at(
                        *m_3d,
                        rv,
                        i1 as int,
                        j2,
                        p,
                    ),
            decreases code_len2 - i2,
        {
            let s = lc3_fiber(msg_len, m_3d, r, i1, i2);
            res.set(i1, i2, s);
            i2 = i2 + 1;
        }
        i1 = i1 + 1;
    }
    res
}

/// The verifier's consistency check for the blinded protocol: reconstruct
/// the unblinded reduced row from the two halves of the opened vector,
/// re-encode it, restore the blinding, and compare the entry at the sampled
/// coordinate against the combination of the opened row.
pub fn check_linear_combination_2_1_simple_zk<F: Field>(
    msg_len: usize,
    code_len: usize,
    m_2d: &Tensor2<F>,
    m_1d: &Vec<F>,
    r: &Vec<F>,
    precodes: &Vec<SparseMatrix<F>>,
    postcodes: &Vec<SparseMatrix<F>>,
    i1: usize,
) -> (ok: bool)
    requires
        chain_wf(precodes@, postcodes@),
        precodes@[0].cols == msg_len,
        codeword_len_spec(precodes@, postcodes@) == code_len,
        m_2d.wf(),
        m_2d.d1 == 2 * code_len,
        m_2d.d2 == msg_len,
        msg_len <= code_len,
        m_1d@.len() == 2 * code_len,
        all_inv(m_1d@),
        r@.len() == msg_len,
        all_inv(r@),
        i1 < 2 * code_len,
    ensures
        ok == (zk_reconstruct(precodes@, postcodes@, vals_of(m_1d@), code_len as int, F::modulus())[
        i1 as int] == lc2_at(*m_2d, vals_of(r@), i1 as int, F::modulus())),
{
    let ghost p = F::modulus();
    let ghost m1dv = vals_of(m_1d@);
    let n1 = m_1d.len();
    proof {
        F::lemma_modulus();
    }
    let mut msg: Vec<F> = Vec::new();
    let mut t: usize = 0;
    while t < msg_len
        invariant
            t <= msg_len,
            msg_len <= code_len,
            m_1d@.len() == 2 * code_len,
            n1 == m_1d@.len(),
            all_inv(m_1d@),
            m1dv == vals_of(m_1d@),
            p == F::modulus(),
            msg@.len() == t,
            all_inv(msg@),
            forall|j: int|
                0 <= j < t ==> (#[trigger] msg@[j]).val() == ((m1dv[j] + p - m1dv[j
                    + code_len]) as nat) % p,
        decreases msg_len - t,
    {
        msg.push(m_1d[t].sub(m_1d[t + code_len]));
        t = t + 1;
    }
    let z = F::zero();
    while msg.len() < code_len
        invariant
            msg_len <= msg@.len() <= code_len,
            msg_len <= code_len,
            m_1d@.len() == 2 * code_len,
            all_inv(m_1d@),
            m1dv == vals_of(m_1d@),
            p == F::modulus(),
            all_inv(msg@),
            z.inv(),
            forall|j: int|
                0 <= j < msg_len ==> (#[trigger] msg@[j]).val() == ((m1dv[j] + p - m1dv[j
                    + code_len]) as nat) % p,
        decreases code_len - msg@.len(),
    {
        msg.push(z);
    }
    let ghost msg_before = msg@;
    encode(&mut msg, precodes, postcodes);
    let ghost diff = Seq::new(
        precodes@[0].cols as nat,
        |i: int| ((m1dv[i] + p - m1dv[i + code_len]) as nat) % p,
    );
    proof {
        crate::encode::lemma_codeword_len_agree(precodes@, postcodes@, diff, p);
        assert(vals_window(msg_before, 0, msg_len as int) =~= diff);
    }
    let ghost w = codeword_spec(precodes@, postcodes@, diff, p);
    let mut t2: usize = 0;
    while t2 < code_len
        invariant
            t2 <= code_len,
            msg_len <= code_len,
            m_1d@.len() == 2 * code_len,
            n1 == m_1d@.len(),
            all_inv(m_1d@),
            m1dv == vals_of(m_1d@),
            p == F::modulus(),
            msg@.len() == code_len + t2,
            all_inv(msg@),
            w == codeword_spec(precodes@, postcodes@, diff, p),
            w.len() == code_len,
            forall|j: int| 0 <= j < t2 ==> (#[trigger] msg@[j]).val() == (w[j] + m1dv[j
                + code_len]) % p,
            forall|j: int| t2 <= j < code_len ==> (#[trigger] msg@[j]).val() == w[j],
            forall|j: int|
                code_len <= j < code_len + t2 ==> (#[trigger] msg@[j]).val() == m1dv[j],
        decreases code_len - t2,
    {
        let e = m_1d[t2 + code_len];
        let nv = msg[t2].add(e);
        msg.set(t2, nv);
        msg.push(e);
        t2 = t2 + 1;
    }
    let s = lc2_row(msg_len, m_2d, r, i1);
    proof {
        assert(vals_of(msg@).len() == 2 * code_len);
        assert(vals_of(msg@)[i1 as int] == msg@[i1 as int].val());
        assert(zk_reconstruct(precodes@, postcodes@, m1dv, code_len as int, p) =~= vals_of(
            msg@,
        ));
    }
    let ok = s.eq_elt(msg[i1]);
    ok
}

/// One full honest round of the blinded two-dimensional protocol: each
/// column is encoded and then hidden behind fresh random blinding values
/// before commitment; the verifier's checks reconstruct the code relation
/// through the blinding.  Returns true exactly when the sizes are
/// compatible: a misconfiguration aborts the round before any work, and
/// every check of an honest round passes.
#[verifier::rlimit(100)]
#[verifier::spinoff_prover]
pub fn commit_2_dim_simple_zk<F: Field>(
    coef_no: usize,
    msg_len: usize,
    code_len: usize,
    seed: u64,
    test_no: usize,
    cs: CodeSpec,
) -> (all_ok: bool)
    requires
        cs.wf(),
        1 <= msg_len < 0x10000,
        2 * code_len <= 0x2000_0000,
        2 * (code_len * msg_len) <= usize::MAX,
    ensures
        all_ok == (sizes_ok(msg_len as nat, cs) && code_len == target_len(msg_len as nat, cs)),
{
    let ghost p = F::modulus();
    proof {
        F::lemma_modulus();
    }
    let chain = generate::<F>(msg_len, seed, cs);
    let (precodes, postcodes) = match chain {
        Some(c) => c,
        None => {
            return false;
        },
    };
    proof {
        lemma_generated_chain_wf(precodes@, postcodes@, msg_len as nat, seed, cs);
        crate::codegen::lemma_target_ge(msg_len as nat, cs);
        crate::codegen::lemma_target_fits(msg_len as nat, cs);
        assert(2 * code_len * msg_len == 2 * (code_len * msg_len)) by (nonlinear_arith);
    }
    let clen = crate::encode::codeword_length(&precodes, &postcodes);
    if clen != code_len {
        return false;
    }
    let code_len2 = 2 * code_len;
    let mut m0: Tensor2<F> = Tensor2::zero(code_len2, msg_len);
    let mut fi: usize = 0;
    while fi < code_len2
        invariant
            fi <= code_len2,
            m0.wf(),
            m0.d1 == code_len2,
            m0.d2 == msg_len,
        decreases code_len2 - fi,
    {
        let mut fj: usize = 0;
        while fj < msg_len
            invariant
                fj <= msg_len,
                fi < code_len2,
                m0.wf(),
                m0.d1 == code_len2,
                m0.d2 == msg_len,
            decreases msg_len - fj,
        {
            m0.set(fi, fj, F::from_word(random_word()));
            fj = fj + 1;
        }
        fi = fi + 1;
    }
    // encode each column, then blind it: first half codeword plus blinding,
    // second half the blinding itself
    let mut i2: usize = 0;
    while i2 < msg_len
        invariant
            i2 <= msg_len,
            chain_wf(precodes@, postcodes@),
            precodes@[0].cols == msg_len,
            codeword_len_spec(precodes@, postcodes@) == code_len,
            msg_len <= code_len,
            code_len2 == 2 * code_len,
            p == F::modulus(),
            p > 1,
            m0.wf(),
            m0.d1 == code_len2,
            m0.d2 == msg_len,
            forall|t: int|
                0 <= t < i2 ==> #[trigger] unblind_col(m0, t, code_len as int, p)
                    == codeword_spec(
                    precodes@,
                    postcodes@,
                    unblind_prefix(m0, t, precodes@[0].cols as int, code_len as int, p),
                    p,
                ),
        decreases msg_len - i2,
    {
        let mut col: Vec<F> = Vec::new();
        let mut t: usize = 0;
        while t < code_len
            invariant
                t <= code_len,
                i2 < msg_len,
                code_len2 == 2 * code_len,
                m0.wf(),
                m0.d1 == code_len2,
                m0.d2 == msg_len,
                col@.len() == t,
                all_inv(col@),
            decreases code_len - t,
        {
            col.push(m0.get(t, i2));
            t = t + 1;
        }
        let ghost col_before = col@;
        let ghost m_before = m0;
        encode(&mut col, &precodes, &postcodes);
        let mut blinded: Vec<F> = Vec::new();
        let mut ebuf: Vec<F> = Vec::new();
        let mut t2: usize = 0;
        while t2 < code_len
            invariant
                t2 <= code_len,
                p == F::modulus(),
                p > 1,
                col@.len() == code_len,
                all_inv(col@),
                blinded@.len() == t2,
                all_inv(blinded@),
                ebuf@.len() == t2,
                all_inv(ebuf@),
                forall|j: int|
                    0 <= j < t2 ==> (#[trigger] blinded@[j]).val() == (col@[j].val()
                        + ebuf@[j].val()) % p,
            decreases code_len - t2,
        {
            let e = F::from_word(random_word());
            blinded.push(col[t2].add(e));
            ebuf.push(e);
            t2 = t2 + 1;
        }
        let mut t3: usize = 0;
        while t3 < code_len
            invariant
                t3 <= code_len,
                i2 < msg_len,
                code_len2 == 2 * code_len,
                p == F::modulus(),
                p > 1,
                m0.wf(),
                m0.d1 == code_len2,
                m0.d2 == msg_len,
                col@.len() == code_len,
                all_inv(col@),
                blinded@.len() == code_len,
                all_inv(blinded@),
                ebuf@.len() == code_len,
                all_inv(ebuf@),
                forall|j: int|
                    0 <= j < code_len ==> (#[trigger] blinded@[j]).val() == (col@[j].val()
                        + ebuf@[j].val()) % p,
                forall|j1: int, j2: int|
                    0 <= j1 < code_len2 && 0 <= j2 < msg_len && j2 != i2 ==> #[trigger] m0.at(
                        j1,
                        j2,
                    ) == m_before.at(j1, j2),
                forall|j: int|
                    0 <= j < t3 ==> #[trigger] m0.at(j, i2 as int) == blinded@[j].val(),
                forall|j: int|
                    0 <= j < t3 ==> #[trigger] m0.at(j + code_len, i2 as int)
                        == ebuf@[j].val(),
            decreases code_len - t3,
        {
            proof {
                assert(blinded@[t3 as int].inv());
                assert(ebuf@[t3 as int].inv());
            }
            m0.set(t3, i2, blinded[t3]);
            m0.set(t3 + code_len, i2, ebuf[t3]);
            t3 = t3 + 1;
        }
        proof {
            let l0 = precodes@[0].cols as int;
            let cl = code_len as int;
            let w = codeword_spec(
                precodes@,
                postcodes@,
                vals_window(col_before, 0, l0),
                p,
            );
            crate::encode::lemma_codeword_spec_len(
                precodes@,
                postcodes@,
                vals_window(col_before, 0, l0),
                p,
            );
            crate::encode::lemma_codeword_len_agree(
                precodes@,
                postcodes@,
                vals_window(col_before, 0, l0),
                p,
            );
            // unblinding this column recovers the codeword
            assert forall|i: int| 0 <= i < cl implies #[trigger] unblind_col(
                m0,
                i2 as int,
                cl,
                p,
            )[i] == vals_of(col@)[i] by {
                col@[i].lemma_val();
                ebuf@[i].lemma_val();
                lemma_unblind(col@[i].val(), ebuf@[i].val(), p);
                assert(m0.at(i, i2 as int) == (col@[i].val() + ebuf@[i].val()) % p);
                assert(m0.at(i + cl, i2 as int) == ebuf@[i].val());
            }
            assert(unblind_col(m0, i2 as int, cl, p) =~= vals_of(col@));
            assert forall|i: int| 0 <= i < l0 implies #[trigger] unblind_prefix(
                m0,
                i2 as int,
                l0,
                cl,
                p,
            )[i] == vals_window(col_before, 0, l0)[i] by {
                assert(unblind_prefix(m0, i2 as int, l0, cl, p)[i] == unblind_col(
                    m0,
                    i2 as int,
                    cl,
                    p,
                )[i]);
                assert(vals_of(col@)[i] == w[i]);
                assert(w[i] == vals_window(col_before, 0, l0)[i]);
            }
            assert(unblind_prefix(m0, i2 as int, l0, cl, p) =~= vals_window(col_before, 0, l0));
            assert(unblind_col(m0, i2 as int, cl, p) == codeword_spec(
                precodes@,
                postcodes@,
                unblind_prefix(m0, i2 as int, l0, cl, p),
                p,
            ));
            // earlier columns are untouched
            assert forall|tc: int| 0 <= tc < i2 implies #[trigger] unblind_col(m0, tc, cl, p)
                == codeword_spec(
                precodes@,
                postcodes@,
                unblind_prefix(m0, tc, l0, cl, p),
                p,
            ) by {
                assert(unblind_col(m0, tc, cl, p) =~= unblind_col(m_before, tc, cl, p));
                assert(unblind_prefix(m0, tc, l0, cl, p) =~= unblind_prefix(
                    m_before,
                    tc,
                    l0,
                    cl,
                    p,
                ));
            }
        }
        i2 = i2 + 1;
    }
    proof {
        assert(blinded_cols2(m0, precodes@, postcodes@, code_len as int, p));
    }
    let r1 = random_coeffs_zk::<F>(msg_len);
    let m1 = linear_combination_2_1_simple_zk(msg_len, code_len, &m0, &r1);
    let hashes_m0 = merkle_tree_commit_2d(msg_len, code_len2, &m0);
    let np2v = next_pow_2(code_len2);
    let root = copy_root(&hashes_m0);
    let mut m0_map = PartialTree::new(root, hashes_m0.len());
    let ghost t0 = crate::merkle::views_of(hashes_m0@);
    proof {
        assert(t0[0] == hashes_m0@[0]@);
        assert(crate::merkle::map_agrees(m0_map@, t0));
    }
    let mut q: usize = 0;
    while q < test_no
        invariant
            q <= test_no,
            chain_wf(precodes@, postcodes@),
            precodes@[0].cols == msg_len,
            codeword_len_spec(precodes@, postcodes@) == code_len,
            1 <= msg_len <= code_len,
            code_len2 == 2 * code_len,
            code_len2 <= 0x2000_0000,
            p == F::modulus(),
            p > 1,
            m0.wf(),
            m0.d1 == code_len2,
            m0.d2 == msg_len,
            blinded_cols2(m0, precodes@, postcodes@, code_len as int, p),
            r1@.len() == msg_len,
            all_inv(r1@),
            m1@.len() == code_len2,
            all_inv(m1@),
            forall|i: int|
                0 <= i < code_len2 ==> (#[trigger] m1@[i]).val() == lc2_at(
                    m0,
                    vals_of(r1@),
                    i,
                    p,
                ),
            np2v == np2(code_len2 as nat),
            code_len2 <= np2v <= 0x4000_0000,
            t0 == crate::merkle::views_of(hashes_m0@),
            hashes_m0@.len() == 2 * np2v - 1,
            crate::merkle::tree_linked(t0),
            forall|i1: int|
                0 <= i1 < code_len2 ==> (#[trigger] hashes_m0@[np2v - 1 + i1])@
                    == crate::hash::digest_of(
                    crate::merkle::reprs_cat(crate::merkle::row2_vals(m0, i1), F::repr_len()),
                ),
            m0_map.size() == hashes_m0@.len(),
            crate::merkle::map_agrees(m0_map@, t0),
            m0_map@.contains_key(0),
        decreases test_no - q,
    {
        let i1 = sample_index(code_len2);
        let ok1 = check_linear_combination_2_1_simple_zk(
            msg_len,
            code_len,
            &m0,
            &m1,
            &r1,
            &precodes,
            &postcodes,
            i1,
        );
        proof {
            lemma_zk_complete(
                precodes@,
                postcodes@,
                m0,
                vals_of(m1@),
                vals_of(r1@),
                code_len as int,
                p,
            );
            assert(vals_of(m1@)[i1 as int] == m1@[i1 as int].val());
        }
        if !ok1 {
            proof {
                assert(false);
            }
            return false;
        }
        let leaf = leaf_hash_2d(&m0, i1);
        let idx = np2v - 1 + i1;
        proof {
            assert(t0[idx as int] == hashes_m0@[np2v - 1 + i1 as int]@);
            assert(leaf@ == t0[idx as int]);
            crate::merkle::lemma_climb_complete(t0, idx as int, m0_map@);
        }
        let ok2 = check_merkle_path(leaf, idx, &mut m0_map, &hashes_m0);
        if !ok2 {
            proof {
                assert(false);
            }
            return false;
        }
        q = q + 1;
    }
    true
}

/// `len` random field elements for the blinded reduction.
fn random_coeffs_zk<F: Field>(len: usize) -> (r: Vec<F>)
    ensures
        r@.len() == len,
        all_inv(r@),
{
    crate::commit::random_coeffs_from_length::<F>(len)
}

/// A copy of the root hash of a tree.
fn copy_root(hashes: &Vec<Vec<u8>>) -> (r: Vec<u8>)
    requires
        hashes@.len() >= 1,
    ensures
        r@ == hashes@[0]@,
{
    let h = &hashes[0];
    let mut r: Vec<u8> = Vec::new();
    let mut t: usize = 0;
    let n = h.len();
    while t < n
        invariant
            t <= n,
            n == h@.len(),
            h@ == hashes@[0]@,
            r@ =~= h@.subrange(0, t as int),
        decreases n - t,
    {
        r.push(h[t]);
        t = t + 1;
    }
    proof {
        assert(r@ =~= h@);
    }
    r
}

/// The unblinded column `j`: the difference of the two halves.
pub open spec fn unblind_col<F: Field>(m: Tensor2<F>, j: int, code_len: int, p: nat) -> Seq<nat> {
    Seq::new(code_len as nat, |i: int| ((m.at(i, j) + p - m.at(i + code_len, j)) as nat) % p)
}

/// The first `n` entries of the unblinded column `j`.
pub open spec fn unblind_prefix<F: Field>(
    m: Tensor2<F>,
    j: int,
    n: int,
    code_len: int,
    p: nat,
) -> Seq<nat> {
    Seq::new(n as nat, |i: int| ((m.at(i, j) + p - m.at(i + code_len, j)) as nat) % p)
}

/// Every column, unblinded, is the codeword of its own unblinded message
/// prefix.
pub open spec fn blinded_cols2<F: Field>(
    m: Tensor2<F>,
    pre: Seq<SparseMatrix<F>>,
    post: Seq<SparseMatrix<F>>,
    code_len: int,
    p: nat,
) -> bool {
    forall|j: int|
        0 <= j < m.d2 ==> #[trigger] unblind_col(m, j, code_len, p) == codeword_spec(
            pre,
            post,
            unblind_prefix(m, j, pre[0].cols as int, code_len, p),
            p,
        )
}

/// Removing the blinding recovers the committed value.
proof fn lemma_unblind(w: nat, e: nat, p: nat)
    requires
        p > 0,
        w < p,
        e < p,
    ensures
        (((w + e) % p + p - e) as nat) % p == w,
{
    lemma_mod_fold((w + e) as int, (p - e) as int, p as int);
    lemma_mod_add_multiples_vanish(w as int, p as int);
    lemma_small_mod(w, p);
}

/// The difference of the half-combinations equals the combination of the
/// unblinded values, pointwise.
proof fn lemma_lc_sub_combo<F: Field>(
    list: Seq<Seq<nat>>,
    m: Tensor2<F>,
    rv: Seq<nat>,
    i: int,
    j: int,
    code_len: int,
    p: nat,
)
    requires
        p > 1,
        list.len() == rv.len(),
        0 <= i,
        0 <= code_len,
        0 <= j <= rv.len(),
        forall|t: int|
            0 <= t < rv.len() ==> (#[trigger] list[t])[i] == ((m.at(i, t) + p - m.at(
                i + code_len,
                t,
            )) as nat) % p,
        forall|t: int|
            0 <= t < rv.len() ==> #[trigger] m.at(i, t) < p && m.at(i + code_len, t) < p,
    ensures
        ((crate::commit::lc2_prefix(m, rv, i, j, p) + p - crate::commit::lc2_prefix(
            m,
            rv,
            i + code_len,
            j,
            p,
        )) as nat) % p == crate::linearity::combo_prefix(list, rv, i, j, p),
    decreases j,
{
    if j <= 0 {
        vstd::arithmetic::div_mod::lemma_mod_self_0(p as int);
    } else {
        lemma_lc_sub_combo(list, m, rv, i, j - 1, code_len, p);
        let a = crate::commit::lc2_prefix(m, rv, i, j - 1, p);
        let b = crate::commit::lc2_prefix(m, rv, i + code_len, j - 1, p);
        lemma_lc2_prefix_bound(m, rv, i, j - 1, p);
        lemma_lc2_prefix_bound(m, rv, i + code_len, j - 1, p);
        lemma_lc2_prefix_bound(m, rv, i, j, p);
        lemma_lc2_prefix_bound(m, rv, i + code_len, j, p);
        let v = rv[j - 1];
        let x = m.at(i, j - 1);
        let y = m.at(i + code_len, j - 1);
        assert(list[j - 1][i] == ((x + p - y) as nat) % p);
        assert(crate::linearity::combo_prefix(list, rv, i, j, p) == (
        crate::linearity::combo_prefix(list, rv, i, j - 1, p) + v * (((x + p - y) as nat)
            % p)) % p);
        lemma_sub_acc(a as int, b as int, x as int, y as int, v as int, p as int);
        assert(crate::commit::lc2_prefix(m, rv, i, j, p) == (a + v * x) % p);
        assert(crate::commit::lc2_prefix(m, rv, i + code_len, j, p) == (b + v * y) % p);
    }
}

/// The half-combinations themselves are reduced.
proof fn lemma_lc2_prefix_bound<F: Field>(m: Tensor2<F>, rv: Seq<nat>, i: int, j: int, p: nat)
    requires
        p > 1,
        0 <= j,
    ensures
        crate::commit::lc2_prefix(m, rv, i, j, p) < p,
    decreases j,
{
    if j <= 0 {
    } else {
        vstd::arithmetic::div_mod::lemma_mod_bound(
            (crate::commit::lc2_prefix(m, rv, i, j - 1, p) + rv[j - 1] * m.at(i, j - 1)) as int,
            p as int,
        );
    }
}

/// For an honestly blinded array, the verifier's reconstruction agrees with
/// the opened combination at every coordinate.
pub proof fn lemma_zk_complete<F: Field>(
    pre: Seq<SparseMatrix<F>>,
    post: Seq<SparseMatrix<F>>,
    m0: Tensor2<F>,
    m1v: Seq<nat>,
    rv: Seq<nat>,
    code_len: int,
    p: nat,
)
    requires
        p > 1,
        chain_wf(pre, post),
        m0.wf(),
        m0.d1 == 2 * code_len,
        m0.d2 == rv.len(),
        rv.len() == pre[0].cols,
        code_len == codeword_len_spec(pre, post),
        pre[0].cols <= code_len,
        blinded_cols2(m0, pre, post, code_len, p),
        p == F::modulus(),
        m1v.len() == 2 * code_len,
        forall|i: int| 0 <= i < 2 * code_len ==> #[trigger] m1v[i] == lc2_at(m0, rv, i, p),
    ensures
        forall|i1: int|
            0 <= i1 < 2 * code_len ==> #[trigger] zk_reconstruct(
                pre,
                post,
                m1v,
                code_len,
                p,
            )[i1] == lc2_at(m0, rv, i1, p),
{
    let l0 = pre[0].cols as int;
    let nn = (pre[0].cols + post[0].cols + post[0].rows) as nat;
    let xs_list = Seq::new(rv.len(), |t: int| unblind_prefix(m0, t, l0, code_len, p));
    let ws_list = Seq::new(rv.len(), |t: int| unblind_col(m0, t, code_len, p));
    assert forall|t: int| 0 <= t < ws_list.len() implies #[trigger] ws_list[t] == codeword_spec(
        pre,
        post,
        xs_list[t],
        p,
    ) by {
        assert(unblind_col(m0, t, code_len, p) == codeword_spec(
            pre,
            post,
            unblind_prefix(m0, t, l0, code_len, p),
            p,
        ));
    }
    crate::linearity::lemma_codeword_combo(pre, post, xs_list, ws_list, rv, rv.len() as int, p);
    crate::tensor::lemma_tensor2_reduced(m0);
    let diff = Seq::new(l0 as nat, |i: int| ((m1v[i] + p - m1v[i + code_len]) as nat) % p);
    assert forall|i: int| 0 <= i < l0 implies #[trigger] diff[i] == crate::linearity::combo_prefix(
        xs_list,
        rv,
        i,
        rv.len() as int,
        p,
    ) by {
        lemma_lc_sub_combo(xs_list, m0, rv, i, rv.len() as int, code_len, p);
    }
    assert(diff =~= crate::linearity::combo_seq(xs_list, rv, l0 as nat, rv.len() as int, p));
    crate::encode::lemma_codeword_spec_len(pre, post, diff, p);
    crate::encode::lemma_codeword_len_agree(pre, post, diff, p);
    let w = codeword_spec(pre, post, diff, p);
    assert forall|i1: int|
        0 <= i1 < 2 * code_len implies #[trigger] zk_reconstruct(
        pre,
        post,
        m1v,
        code_len,
        p,
    )[i1] == lc2_at(m0, rv, i1, p) by {
        if i1 < code_len {
            lemma_lc_sub_combo(ws_list, m0, rv, i1, rv.len() as int, code_len, p);
            assert(w[i1] == crate::linearity::combo_seq(
                ws_list,
                rv,
                nn,
                rv.len() as int,
                p,
            )[i1]);
            let a = crate::commit::lc2_prefix(m0, rv, i1, rv.len() as int, p);
            let b = crate::commit::lc2_prefix(m0, rv, i1 + code_len, rv.len() as int, p);
            assert(w[i1] == ((a + p - b) as nat) % p);
            lemma_lc2_prefix_bound(m0, rv, i1, rv.len() as int, p);
            lemma_lc2_prefix_bound(m0, rv, i1 + code_len, rv.len() as int, p);
            lemma_mod_fold(((a + p - b) as nat % p) as int, b as int, p as int);
            lemma_mod_fold((a + p - b) as int, b as int, p as int);
            lemma_mod_add_multiples_vanish(a as int, p as int);
            lemma_small_mod(a, p);
            assert((w[i1] + m1v[i1 + code_len]) % p == a);
        }
    }
}

} // verus!
