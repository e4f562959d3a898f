//! Linearity of the code.
//!
//! The encoder is a linear map: encoding an affine combination
//! `x + c * y` of two messages yields the same affine combination of their
//! codewords ([`lemma_codeword_affine`]), and more generally the codeword of
//! a random linear combination of messages is that combination of their
//! codewords ([`lemma_codeword_combo`]).  This is what makes the
//! spot-checked consistency relation of the commitment scheme hold for an
//! honest prover.

use crate::encode::{
    chain_wf, codeword_spec, horner, mat_mul_spec, overwrite_add, post_width_ok, pow_mod,
    pre_link_ok, rev_chain_wf, rev_link_ok, rev_phase_a, rev_phase_b, rev_phase_c, rev_spec,
    rev_v, rev_width_ok, rev_x, rev_z, rs_point, rs_spec, vand_prefix, vand_t, win, z_seg,
};
use crate::field::Field;
use crate::sparse::{dot_prefix, SparseMatrix};
use vstd::prelude::*;

verus! {

use vstd::arithmetic::div_mod::{
    lemma_add_mod_noop, lemma_add_mod_noop_right, lemma_mod_twice, lemma_mul_mod_noop_left,
    lemma_mul_mod_noop_right, lemma_small_mod,
};

/// The pointwise affine combination `(u[i] + c * v[i]) % p`.
pub open spec fn affine_seq(u: Seq<nat>, v: Seq<nat>, c: nat, p: nat) -> Seq<nat> {
    Seq::new(u.len(), |i: int| (u[i] + c * v[i]) % p)
}

/// Folding a reduced term into a sum commutes with the outer reduction.
proof fn lemma_mod_add_left(u: int, v: int, p: int)
    requires
        p > 0,
    ensures
        (u % p + v) % p == (u + v) % p,
{
    lemma_mod_twice(u, p);
    lemma_add_mod_noop(u % p, v, p);
    lemma_add_mod_noop(u, v, p);
}

/// One accumulation step commutes with the affine combination.
proof fn lemma_affine_acc(a: int, b: int, x: int, y: int, c: int, v: int, p: int)
    requires
        p > 0,
    ensures
        ((a + c * b) % p + v * ((x + c * y) % p)) % p == ((a + v * x) % p + c * ((b + v * y)
            % p)) % p,
{
    // both sides reduce to (a + c*b + v*x + c*(v*y)) % p
    lemma_mod_add_left(a + c * b, v * ((x + c * y) % p), p);
    lemma_add_mod_noop_right(a + c * b, v * ((x + c * y) % p), p);
    lemma_mul_mod_noop_right(v, x + c * y, p);
    lemma_add_mod_noop_right(a + c * b, v * (x + c * y), p);
    lemma_mod_add_left(a + v * x, c * ((b + v * y) % p), p);
    lemma_add_mod_noop_right(a + v * x, c * ((b + v * y) % p), p);
    lemma_mul_mod_noop_right(c, b + v * y, p);
    lemma_add_mod_noop_right(a + v * x, c * (b + v * y), p);
    assert(a + c * b + v * (x + c * y) == a + v * x + c * (b + v * y)) by (nonlinear_arith);
}

/// One Horner step commutes with the affine combination.
proof fn lemma_affine_horner(ha: int, hb: int, u: int, w: int, c: int, x: int, p: int)
    requires
        p > 0,
    ensures
        ((ha + c * hb) % p * x + (u + c * w) % p) % p == ((ha * x + u) % p + c * ((hb * x + w)
            % p)) % p,
{
    lemma_mul_mod_noop_left(ha + c * hb, x, p);
    // reduce the left side step by step
    lemma_add_mod_noop((ha + c * hb) % p * x, (u + c * w) % p, p);
    lemma_mod_twice((ha + c * hb) % p * x, p);
    lemma_mod_twice(u + c * w, p);
    lemma_add_mod_noop((ha + c * hb) * x, u + c * w, p);
    // and the right side
    lemma_mod_add_left(ha * x + u, c * ((hb * x + w) % p), p);
    lemma_add_mod_noop_right(ha * x + u, c * ((hb * x + w) % p), p);
    lemma_mul_mod_noop_right(c, hb * x + w, p);
    lemma_add_mod_noop_right(ha * x + u, c * (hb * x + w), p);
    assert((ha + c * hb) * x + (u + c * w) == (ha * x + u) + c * (hb * x + w))
        by (nonlinear_arith);
}

/// A sparse dot product is linear in the dense vector.
proof fn lemma_dot_prefix_affine(
    e: Seq<(nat, nat)>,
    x: Seq<nat>,
    y: Seq<nat>,
    c: nat,
    p: nat,
    j: int,
)
    requires
        p > 0,
        x.len() == y.len(),
        forall|t: int| 0 <= t < e.len() ==> (#[trigger] e[t]).0 < x.len(),
        j <= e.len(),
    ensures
        dot_prefix(e, affine_seq(x, y, c, p), p, j) == (dot_prefix(e, x, p, j) + c * dot_prefix(
            e,
            y,
            p,
            j,
        )) % p,
    decreases j,
{
    if j <= 0 {
        assert(((c as int) * 0) % (p as int) == 0) by (nonlinear_arith)
            requires
                p > 0,
        ;
    } else {
        lemma_dot_prefix_affine(e, x, y, c, p, j - 1);
        let e0 = e[j - 1].0 as int;
        let v = e[j - 1].1 as int;
        assert(affine_seq(x, y, c, p)[e0] == (x[e0] + c * y[e0]) % p);
        lemma_affine_acc(
            dot_prefix(e, x, p, j - 1) as int,
            dot_prefix(e, y, p, j - 1) as int,
            x[e0] as int,
            y[e0] as int,
            c as int,
            v,
            p as int,
        );
    }
}

/// A matrix-vector product is linear in the vector.
proof fn lemma_mat_mul_affine<F: Field>(m: SparseMatrix<F>, x: Seq<nat>, y: Seq<nat>, c: nat, p: nat)
    requires
        p > 0,
        m.wf(),
        x.len() == y.len(),
        x.len() == m.cols,
    ensures
        mat_mul_spec(m, affine_seq(x, y, c, p), p) == affine_seq(
            mat_mul_spec(m, x, p),
            mat_mul_spec(m, y, p),
            c,
            p,
        ),
{
    assert forall|r: int| 0 <= r < m.rows implies mat_mul_spec(m, affine_seq(x, y, c, p), p)[r]
        == affine_seq(mat_mul_spec(m, x, p), mat_mul_spec(m, y, p), c, p)[r] by {
        let e = m.row_entries(r);
        assert forall|t: int| 0 <= t < e.len() implies (#[trigger] e[t]).0 < x.len() by {
            reveal(SparseMatrix::wf);
            assert(m.indptr@[r] + t < m.indices@.len());
            assert(m.indices@[m.indptr@[r] + t] < m.cols);
        }
        lemma_dot_prefix_affine(e, x, y, c, p, e.len() as int);
    }
    assert(mat_mul_spec(m, affine_seq(x, y, c, p), p) =~= affine_seq(
        mat_mul_spec(m, x, p),
        mat_mul_spec(m, y, p),
        c,
        p,
    ));
}

/// The length of each precode output segment.
pub proof fn lemma_z_seg_len<F: Field>(
    pre: Seq<SparseMatrix<F>>,
    xs: Seq<nat>,
    p: nat,
    i: int,
)
    requires
        0 <= i < pre.len(),
        xs.len() == pre[0].cols,
        forall|t: int| 0 <= t < pre.len() ==> (#[trigger] pre[t]).wf(),
        forall|t: int| 0 <= t < pre.len() - 1 ==> #[trigger] pre_link_ok(pre, t),
    ensures
        z_seg(pre, xs, p, i).len() == pre[i].cols,
    decreases i,
{
    if i > 0 {
        lemma_z_seg_len(pre, xs, p, i - 1);
        assert(pre_link_ok(pre, i - 1));
    }
}

/// Every precode output segment is linear in the message.
proof fn lemma_z_seg_affine<F: Field>(
    pre: Seq<SparseMatrix<F>>,
    xs: Seq<nat>,
    ys: Seq<nat>,
    c: nat,
    p: nat,
    i: int,
)
    requires
        p > 0,
        0 <= i < pre.len(),
        xs.len() == ys.len(),
        xs.len() == pre[0].cols,
        forall|t: int| 0 <= t < pre.len() ==> (#[trigger] pre[t]).wf(),
        forall|t: int| 0 <= t < pre.len() - 1 ==> #[trigger] pre_link_ok(pre, t),
    ensures
        z_seg(pre, affine_seq(xs, ys, c, p), p, i) == affine_seq(
            z_seg(pre, xs, p, i),
            z_seg(pre, ys, p, i),
            c,
            p,
        ),
    decreases i,
{
    if i <= 0 {
        assert(z_seg(pre, affine_seq(xs, ys, c, p), p, 0) == affine_seq(xs, ys, c, p));
    } else {
        lemma_z_seg_affine(pre, xs, ys, c, p, i - 1);
        lemma_z_seg_len(pre, xs, p, i - 1);
        lemma_z_seg_len(pre, ys, p, i - 1);
        if i - 1 < pre.len() - 1 {
            assert(pre_link_ok(pre, i - 1));
        }
        lemma_mat_mul_affine(pre[i - 1], z_seg(pre, xs, p, i - 1), z_seg(pre, ys, p, i - 1), c, p);
    }
}

/// Horner evaluation is linear in the coefficients.
proof fn lemma_horner_affine(a: Seq<nat>, b: Seq<nat>, x: nat, c: nat, p: nat, j: int)
    requires
        p > 0,
        a.len() == b.len(),
        0 <= j <= a.len(),
    ensures
        horner(affine_seq(a, b, c, p), x, p, j) == (horner(a, x, p, j) + c * horner(b, x, p, j))
            % p,
    decreases a.len() - j,
{
    if j >= a.len() {
        assert(((c as int) * 0) % (p as int) == 0) by (nonlinear_arith)
            requires
                p > 0,
        ;
    } else {
        lemma_horner_affine(a, b, x, c, p, j + 1);
        assert(affine_seq(a, b, c, p)[j] == (a[j] + c * b[j]) % p);
        lemma_affine_horner(
            horner(a, x, p, j + 1) as int,
            horner(b, x, p, j + 1) as int,
            a[j] as int,
            b[j] as int,
            c as int,
            x as int,
            p as int,
        );
    }
}

/// The Reed-Solomon map is linear in the coefficients.
proof fn lemma_rs_affine(a: Seq<nat>, b: Seq<nat>, n_out: nat, c: nat, p: nat)
    requires
        p > 0,
        a.len() == b.len(),
    ensures
        rs_spec(affine_seq(a, b, c, p), n_out, p) == affine_seq(
            rs_spec(a, n_out, p),
            rs_spec(b, n_out, p),
            c,
            p,
        ),
{
    assert forall|i: int| 0 <= i < n_out implies rs_spec(affine_seq(a, b, c, p), n_out, p)[i]
        == affine_seq(rs_spec(a, n_out, p), rs_spec(b, n_out, p), c, p)[i] by {
        lemma_horner_affine(a, b, rs_point(i, p), c, p, 0);
    }
    assert(rs_spec(affine_seq(a, b, c, p), n_out, p) =~= affine_seq(
        rs_spec(a, n_out, p),
        rs_spec(b, n_out, p),
        c,
        p,
    ));
}

/// Affine combination distributes over concatenation.
proof fn lemma_affine_concat(u1: Seq<nat>, u2: Seq<nat>, v1: Seq<nat>, v2: Seq<nat>, c: nat, p: nat)
    requires
        p > 0,
        u1.len() == v1.len(),
        u2.len() == v2.len(),
    ensures
        affine_seq(u1 + u2, v1 + v2, c, p) == affine_seq(u1, v1, c, p) + affine_seq(u2, v2, c, p),
{
    assert forall|i: int| 0 <= i < u1.len() + u2.len() implies affine_seq(u1 + u2, v1 + v2, c, p)[i]
        == (affine_seq(u1, v1, c, p) + affine_seq(u2, v2, c, p))[i] by {
        assert(affine_seq(u1 + u2, v1 + v2, c, p)[i] == ((u1 + u2)[i] + c * (v1 + v2)[i]) % p);
        if i < u1.len() {
            assert((u1 + u2)[i] == u1[i]);
            assert((v1 + v2)[i] == v1[i]);
            assert((affine_seq(u1, v1, c, p) + affine_seq(u2, v2, c, p))[i] == affine_seq(
                u1,
                v1,
                c,
                p,
            )[i]);
            assert(affine_seq(u1, v1, c, p)[i] == (u1[i] + c * v1[i]) % p);
        } else {
            assert((u1 + u2)[i] == u2[i - u1.len()]);
            assert((v1 + v2)[i] == v2[i - v1.len()]);
            assert((affine_seq(u1, v1, c, p) + affine_seq(u2, v2, c, p))[i] == affine_seq(
                u2,
                v2,
                c,
                p,
            )[i - u1.len()]);
            assert(affine_seq(u2, v2, c, p)[i - u1.len()] == (u2[i - u1.len()] + c * v2[i
                - u1.len()]) % p);
        }
    }
    assert(affine_seq(u1 + u2, v1 + v2, c, p) =~= affine_seq(u1, v1, c, p) + affine_seq(
        u2,
        v2,
        c,
        p,
    ));
}

/// Every window of the codeword is linear in the message.
proof fn lemma_win_affine<F: Field>(
    pre: Seq<SparseMatrix<F>>,
    post: Seq<SparseMatrix<F>>,
    xs: Seq<nat>,
    ys: Seq<nat>,
    c: nat,
    p: nat,
    j: int,
)
    requires
        p > 0,
        chain_wf(pre, post),
        0 <= j < pre.len(),
        xs.len() == ys.len(),
        xs.len() == pre[0].cols,
    ensures
        win(pre, post, affine_seq(xs, ys, c, p), p, j) == affine_seq(
            win(pre, post, xs, p, j),
            win(pre, post, ys, p, j),
            c,
            p,
        ),
    decreases pre.len() - 1 - j,
{
    let k = pre.len() as int;
    let axy = affine_seq(xs, ys, c, p);
    if j >= k - 1 {
        lemma_z_seg_affine(pre, xs, ys, c, p, k - 1);
        lemma_z_seg_len(pre, xs, p, k - 1);
        lemma_z_seg_len(pre, ys, p, k - 1);
        lemma_mat_mul_affine(pre[k - 1], z_seg(pre, xs, p, k - 1), z_seg(pre, ys, p, k - 1), c, p);
        lemma_rs_affine(
            mat_mul_spec(pre[k - 1], z_seg(pre, xs, p, k - 1), p),
            mat_mul_spec(pre[k - 1], z_seg(pre, ys, p, k - 1), p),
            post[post.len() - 1].cols as nat,
            c,
            p,
        );
    } else {
        lemma_win_affine(pre, post, xs, ys, c, p, j + 1);
        lemma_z_seg_affine(pre, xs, ys, c, p, j + 1);
        lemma_z_seg_len(pre, xs, p, j + 1);
        lemma_z_seg_len(pre, ys, p, j + 1);
        crate::encode::lemma_win_len(pre, post, xs, p, j + 1);
        crate::encode::lemma_win_len(pre, post, ys, p, j + 1);
        assert(post_width_ok(pre, post, j + 1) || j + 1 == k - 1);
        lemma_mat_mul_affine(post[j + 1], win(pre, post, xs, p, j + 1), win(pre, post, ys, p, j + 1), c, p);
        lemma_affine_concat(
            z_seg(pre, xs, p, j + 1),
            win(pre, post, xs, p, j + 1) + mat_mul_spec(post[j + 1], win(pre, post, xs, p, j + 1), p),
            z_seg(pre, ys, p, j + 1),
            win(pre, post, ys, p, j + 1) + mat_mul_spec(post[j + 1], win(pre, post, ys, p, j + 1), p),
            c,
            p,
        );
        lemma_affine_concat(
            win(pre, post, xs, p, j + 1),
            mat_mul_spec(post[j + 1], win(pre, post, xs, p, j + 1), p),
            win(pre, post, ys, p, j + 1),
            mat_mul_spec(post[j + 1], win(pre, post, ys, p, j + 1), p),
            c,
            p,
        );
        assert(z_seg(pre, axy, p, j + 1) + (win(pre, post, axy, p, j + 1) + mat_mul_spec(
            post[j + 1],
            win(pre, post, axy, p, j + 1),
            p,
        )) =~= z_seg(pre, axy, p, j + 1) + win(pre, post, axy, p, j + 1) + mat_mul_spec(
            post[j + 1],
            win(pre, post, axy, p, j + 1),
            p,
        ));
        assert(affine_seq(
            z_seg(pre, xs, p, j + 1) + (win(pre, post, xs, p, j + 1) + mat_mul_spec(
                post[j + 1],
                win(pre, post, xs, p, j + 1),
                p,
            )),
            z_seg(pre, ys, p, j + 1) + (win(pre, post, ys, p, j + 1) + mat_mul_spec(
                post[j + 1],
                win(pre, post, ys, p, j + 1),
                p,
            )),
            c,
            p,
        ) =~= affine_seq(
            z_seg(pre, xs, p, j + 1) + win(pre, post, xs, p, j + 1) + mat_mul_spec(
                post[j + 1],
                win(pre, post, xs, p, j + 1),
                p,
            ),
            z_seg(pre, ys, p, j + 1) + win(pre, post, ys, p, j + 1) + mat_mul_spec(
                post[j + 1],
                win(pre, post, ys, p, j + 1),
                p,
            ),
            c,
            p,
        ));
    }
}

/// Linearity of the code: the codeword of `x + c * y` is the same affine
/// combination of the codewords of `x` and of `y`.
pub proof fn lemma_codeword_affine<F: Field>(
    pre: Seq<SparseMatrix<F>>,
    post: Seq<SparseMatrix<F>>,
    xs: Seq<nat>,
    ys: Seq<nat>,
    c: nat,
    p: nat,
)
    requires
        p > 0,
        chain_wf(pre, post),
        xs.len() == ys.len(),
        xs.len() == pre[0].cols,
    ensures
        codeword_spec(pre, post, affine_seq(xs, ys, c, p), p) == affine_seq(
            codeword_spec(pre, post, xs, p),
            codeword_spec(pre, post, ys, p),
            c,
            p,
        ),
{
    let axy = affine_seq(xs, ys, c, p);
    lemma_win_affine(pre, post, xs, ys, c, p, 0);
    crate::encode::lemma_win_len(pre, post, xs, p, 0);
    crate::encode::lemma_win_len(pre, post, ys, p, 0);
    lemma_mat_mul_affine(post[0], win(pre, post, xs, p, 0), win(pre, post, ys, p, 0), c, p);
    lemma_affine_concat(
        xs,
        win(pre, post, xs, p, 0) + mat_mul_spec(post[0], win(pre, post, xs, p, 0), p),
        ys,
        win(pre, post, ys, p, 0) + mat_mul_spec(post[0], win(pre, post, ys, p, 0), p),
        c,
        p,
    );
    lemma_affine_concat(
        win(pre, post, xs, p, 0),
        mat_mul_spec(post[0], win(pre, post, xs, p, 0), p),
        win(pre, post, ys, p, 0),
        mat_mul_spec(post[0], win(pre, post, ys, p, 0), p),
        c,
        p,
    );
    assert(xs + (win(pre, post, xs, p, 0) + mat_mul_spec(post[0], win(pre, post, xs, p, 0), p))
        =~= codeword_spec(pre, post, xs, p));
    assert(ys + (win(pre, post, ys, p, 0) + mat_mul_spec(post[0], win(pre, post, ys, p, 0), p))
        =~= codeword_spec(pre, post, ys, p));
    assert(axy + (win(pre, post, axy, p, 0) + mat_mul_spec(post[0], win(pre, post, axy, p, 0), p))
        =~= codeword_spec(pre, post, axy, p));
}


/// The all-zero message.
pub open spec fn zero_seq(n: nat) -> Seq<nat> {
    Seq::new(n, |i: int| 0nat)
}

proof fn lemma_dot_prefix_zero(e: Seq<(nat, nat)>, n: nat, p: nat, j: int)
    requires
        p > 0,
        j <= e.len(),
        forall|t: int| 0 <= t < e.len() ==> (#[trigger] e[t]).0 < n,
    ensures
        dot_prefix(e, zero_seq(n), p, j) == 0,
    decreases j,
{
    if j > 0 {
        lemma_dot_prefix_zero(e, n, p, j - 1);
        let e0 = e[j - 1].0 as int;
        let v = e[j - 1].1 as int;
        assert(zero_seq(n)[e0] == 0);
        assert(v * 0 == 0) by (nonlinear_arith);
        lemma_small_mod(0, p);
    }
}

proof fn lemma_mat_mul_zero<F: Field>(m: SparseMatrix<F>, n: nat, p: nat)
    requires
        p > 0,
        m.wf(),
        n == m.cols,
    ensures
        mat_mul_spec(m, zero_seq(n), p) == zero_seq(m.rows as nat),
{
    assert forall|r: int| 0 <= r < m.rows implies mat_mul_spec(m, zero_seq(n), p)[r] == 0 by {
        let e = m.row_entries(r);
        assert forall|t: int| 0 <= t < e.len() implies (#[trigger] e[t]).0 < n by {
            reveal(SparseMatrix::wf);
            assert(m.indptr@[r] + t < m.indices@.len());
            assert(m.indices@[m.indptr@[r] + t] < m.cols);
        }
        lemma_dot_prefix_zero(e, n, p, e.len() as int);
    }
    assert(mat_mul_spec(m, zero_seq(n), p) =~= zero_seq(m.rows as nat));
}

proof fn lemma_z_seg_zero<F: Field>(pre: Seq<SparseMatrix<F>>, p: nat, i: int)
    requires
        p > 0,
        0 <= i < pre.len(),
        forall|t: int| 0 <= t < pre.len() ==> (#[trigger] pre[t]).wf(),
        forall|t: int| 0 <= t < pre.len() - 1 ==> #[trigger] pre_link_ok(pre, t),
    ensures
        z_seg(pre, zero_seq(pre[0].cols as nat), p, i) == zero_seq(
            if i == 0 {
                pre[0].cols as nat
            } else {
                pre[i - 1].rows as nat
            },
        ),
    decreases i,
{
    if i > 0 {
        lemma_z_seg_zero(pre, p, i - 1);
        if i >= 2 {
            assert(pre_link_ok(pre, i - 2));
        }
        lemma_mat_mul_zero(pre[i - 1], pre[i - 1].cols as nat, p);
    }
}

proof fn lemma_horner_zero(n: nat, x: nat, p: nat, j: int)
    requires
        p > 0,
        0 <= j,
    ensures
        horner(zero_seq(n), x, p, j) == 0,
    decreases n - j,
{
    if j < n {
        lemma_horner_zero(n, x, p, j + 1);
        assert(zero_seq(n)[j] == 0);
        assert(0int * x == 0) by (nonlinear_arith);
        lemma_small_mod(0, p);
    }
}

proof fn lemma_rs_zero(n: nat, n_out: nat, p: nat)
    requires
        p > 0,
    ensures
        rs_spec(zero_seq(n), n_out, p) == zero_seq(n_out),
{
    assert forall|i: int| 0 <= i < n_out implies rs_spec(zero_seq(n), n_out, p)[i] == 0 by {
        lemma_horner_zero(n, rs_point(i, p), p, 0);
    }
    assert(rs_spec(zero_seq(n), n_out, p) =~= zero_seq(n_out));
}

proof fn lemma_win_zero<F: Field>(
    pre: Seq<SparseMatrix<F>>,
    post: Seq<SparseMatrix<F>>,
    p: nat,
    j: int,
)
    requires
        p > 0,
        chain_wf(pre, post),
        0 <= j < pre.len(),
    ensures
        win(pre, post, zero_seq(pre[0].cols as nat), p, j) == zero_seq(post[j].cols as nat),
    decreases pre.len() - 1 - j,
{
    let k = pre.len() as int;
    let zs = zero_seq(pre[0].cols as nat);
    if j >= k - 1 {
        lemma_z_seg_zero(pre, p, k - 1);
        lemma_z_seg_len(pre, zs, p, k - 1);
        lemma_mat_mul_zero(pre[k - 1], pre[k - 1].cols as nat, p);
        lemma_rs_zero(pre[k - 1].rows as nat, post[post.len() - 1].cols as nat, p);
    } else {
        lemma_win_zero(pre, post, p, j + 1);
        lemma_z_seg_zero(pre, p, j + 1);
        lemma_mat_mul_zero(post[j + 1], post[j + 1].cols as nat, p);
        assert(post_width_ok(pre, post, j));
        assert(zero_seq(pre[j].rows as nat) + zero_seq(post[j + 1].cols as nat) + zero_seq(
            post[j + 1].rows as nat,
        ) =~= zero_seq(post[j].cols as nat));
    }
}

/// The codeword of the zero message is all zero.
pub proof fn lemma_codeword_zero<F: Field>(
    pre: Seq<SparseMatrix<F>>,
    post: Seq<SparseMatrix<F>>,
    p: nat,
)
    requires
        p > 0,
        chain_wf(pre, post),
    ensures
        codeword_spec(pre, post, zero_seq(pre[0].cols as nat), p) == zero_seq(
            (pre[0].cols + post[0].cols + post[0].rows) as nat,
        ),
{
    let zs = zero_seq(pre[0].cols as nat);
    lemma_win_zero(pre, post, p, 0);
    lemma_mat_mul_zero(post[0], post[0].cols as nat, p);
    assert(codeword_spec(pre, post, zs, p) =~= zero_seq(
        (pre[0].cols + post[0].cols + post[0].rows) as nat,
    ));
}

/// The random linear combination of the rows `xs[0..j]` at position `i`,
/// accumulated left to right with a reduction after every step.
pub open spec fn combo_prefix(xs: Seq<Seq<nat>>, r: Seq<nat>, i: int, j: int, p: nat) -> nat
    decreases j,
{
    if j <= 0 {
        0
    } else {
        (combo_prefix(xs, r, i, j - 1, p) + r[j - 1] * xs[j - 1][i]) % p
    }
}

/// The pointwise random linear combination of the first `j` rows.
pub open spec fn combo_seq(xs: Seq<Seq<nat>>, r: Seq<nat>, len: nat, j: int, p: nat) -> Seq<nat> {
    Seq::new(len, |i: int| combo_prefix(xs, r, i, j, p))
}

/// The codeword of a random linear combination of messages is the same
/// combination of their codewords.
pub proof fn lemma_codeword_combo<F: Field>(
    pre: Seq<SparseMatrix<F>>,
    post: Seq<SparseMatrix<F>>,
    xs_list: Seq<Seq<nat>>,
    ws_list: Seq<Seq<nat>>,
    r: Seq<nat>,
    j: int,
    p: nat,
)
    requires
        p > 0,
        chain_wf(pre, post),
        xs_list.len() == r.len(),
        ws_list.len() == r.len(),
        0 <= j <= r.len(),
        forall|t: int| 0 <= t < xs_list.len() ==> (#[trigger] xs_list[t]).len() == pre[0].cols,
        forall|t: int|
            0 <= t < ws_list.len() ==> #[trigger] ws_list[t] == codeword_spec(
                pre,
                post,
                xs_list[t],
                p,
            ),
    ensures
        codeword_spec(pre, post, combo_seq(xs_list, r, pre[0].cols as nat, j, p), p) == combo_seq(
            ws_list,
            r,
            (pre[0].cols + post[0].cols + post[0].rows) as nat,
            j,
            p,
        ),
    decreases j,
{
    let l0 = pre[0].cols as nat;
    let nn = (pre[0].cols + post[0].cols + post[0].rows) as nat;
    if j <= 0 {
        assert(combo_seq(xs_list, r, l0, j, p) =~= zero_seq(l0));
        lemma_codeword_zero(pre, post, p);
        assert(combo_seq(ws_list, r, nn, j, p) =~= zero_seq(nn));
    } else {
        lemma_codeword_combo(pre, post, xs_list, ws_list, r, j - 1, p);
        let c = r[j - 1];
        let prev = combo_seq(xs_list, r, l0, j - 1, p);
        assert(combo_seq(xs_list, r, l0, j, p) =~= affine_seq(prev, xs_list[j - 1], c, p));
        lemma_codeword_affine(pre, post, prev, xs_list[j - 1], c, p);
        crate::encode::lemma_codeword_spec_len(pre, post, prev, p);
        crate::encode::lemma_codeword_spec_len(pre, post, xs_list[j - 1], p);
        assert(combo_seq(ws_list, r, nn, j, p) =~= affine_seq(
            combo_seq(ws_list, r, nn, j - 1, p),
            ws_list[j - 1],
            c,
            p,
        ));
    }
}

/// The segment positions of a well-formed reverse chain stay inside the
/// buffer.
pub proof fn lemma_rev_positions<F: Field>(
    pre: Seq<SparseMatrix<F>>,
    post: Seq<SparseMatrix<F>>,
    j: int,
)
    requires
        rev_chain_wf(pre, post),
        0 <= j < pre.len(),
    ensures
        rev_z(pre, j) == rev_x(pre, j) + pre[j].rows,
        rev_v(pre, post, j) == rev_z(pre, j) + post[j].rows,
        rev_v(pre, post, j) + post[j].cols <= pre[0].rows + post[0].rows + post[0].cols,
        0 <= rev_x(pre, j),
    decreases j,
{
    if j > 0 {
        lemma_rev_positions(pre, post, j - 1);
        assert(rev_width_ok(pre, post, j - 1));
        assert(rev_link_ok(pre, j - 1));
    }
}

/// Adding matching products into matching segments commutes with the
/// affine combination.
proof fn lemma_overwrite_add_affine(
    b1: Seq<nat>,
    b2: Seq<nat>,
    w1: Seq<nat>,
    w2: Seq<nat>,
    c: nat,
    p: nat,
    at: int,
)
    requires
        p > 0,
        b1.len() == b2.len(),
        w1.len() == w2.len(),
    ensures
        overwrite_add(affine_seq(b1, b2, c, p), at, affine_seq(w1, w2, c, p), p) == affine_seq(
            overwrite_add(b1, at, w1, p),
            overwrite_add(b2, at, w2, p),
            c,
            p,
        ),
{
    assert forall|i: int|
        0 <= i < b1.len() implies overwrite_add(
        affine_seq(b1, b2, c, p),
        at,
        affine_seq(w1, w2, c, p),
        p,
    )[i] == affine_seq(overwrite_add(b1, at, w1, p), overwrite_add(b2, at, w2, p), c, p)[i] by {
        if at <= i < at + w1.len() {
            lemma_affine_acc(
                b1[i] as int,
                b2[i] as int,
                w1[i - at] as int,
                w2[i - at] as int,
                c as int,
                1int,
                p as int,
            );
        }
    }
    assert(overwrite_add(affine_seq(b1, b2, c, p), at, affine_seq(w1, w2, c, p), p) =~= affine_seq(
        overwrite_add(b1, at, w1, p),
        overwrite_add(b2, at, w2, p),
        c,
        p,
    ));
}

/// A subrange of an affine combination is the affine combination of the
/// subranges.
proof fn lemma_affine_subrange(b1: Seq<nat>, b2: Seq<nat>, c: nat, p: nat, a: int, e: int)
    requires
        p > 0,
        b1.len() == b2.len(),
        0 <= a <= e <= b1.len(),
    ensures
        affine_seq(b1, b2, c, p).subrange(a, e) == affine_seq(
            b1.subrange(a, e),
            b2.subrange(a, e),
            c,
            p,
        ),
{
    assert forall|i: int|
        0 <= i < e - a implies affine_seq(b1, b2, c, p).subrange(a, e)[i] == affine_seq(
        b1.subrange(a, e),
        b2.subrange(a, e),
        c,
        p,
    )[i] by {
        assert(affine_seq(b1, b2, c, p).subrange(a, e)[i] == affine_seq(b1, b2, c, p)[a + i]);
        assert(affine_seq(b1, b2, c, p)[a + i] == (b1[a + i] + c * b2[a + i]) % p);
        assert(b1.subrange(a, e)[i] == b1[a + i]);
        assert(b2.subrange(a, e)[i] == b2[a + i]);
    }
    assert(affine_seq(b1, b2, c, p).subrange(a, e) =~= affine_seq(
        b1.subrange(a, e),
        b2.subrange(a, e),
        c,
        p,
    ));
}

/// The backward postcode phase is linear in the buffer.
proof fn lemma_rev_phase_a_affine<F: Field>(
    pre: Seq<SparseMatrix<F>>,
    post: Seq<SparseMatrix<F>>,
    b1: Seq<nat>,
    b2: Seq<nat>,
    c: nat,
    p: nat,
    j: int,
)
    requires
        p > 0,
        rev_chain_wf(pre, post),
        b1.len() == b2.len(),
        b1.len() == pre[0].rows + post[0].rows + post[0].cols,
        0 <= j <= pre.len(),
    ensures
        rev_phase_a(pre, post, affine_seq(b1, b2, c, p), p, j) == affine_seq(
            rev_phase_a(pre, post, b1, p, j),
            rev_phase_a(pre, post, b2, p, j),
            c,
            p,
        ),
        rev_phase_a(pre, post, b1, p, j).len() == b1.len(),
        rev_phase_a(pre, post, b2, p, j).len() == b2.len(),
    decreases j,
{
    if j <= 0 {
    } else {
        lemma_rev_phase_a_affine(pre, post, b1, b2, c, p, j - 1);
        lemma_rev_positions(pre, post, j - 1);
        let a1 = rev_phase_a(pre, post, b1, p, j - 1);
        let a2 = rev_phase_a(pre, post, b2, p, j - 1);
        let v = rev_v(pre, post, j - 1);
        lemma_affine_subrange(a1, a2, c, p, v, v + post[j - 1].cols);
        lemma_mat_mul_affine(
            post[j - 1],
            a1.subrange(v, v + post[j - 1].cols),
            a2.subrange(v, v + post[j - 1].cols),
            c,
            p,
        );
        lemma_overwrite_add_affine(
            a1,
            a2,
            mat_mul_spec(post[j - 1], a1.subrange(v, v + post[j - 1].cols), p),
            mat_mul_spec(post[j - 1], a2.subrange(v, v + post[j - 1].cols), p),
            c,
            p,
            rev_z(pre, j - 1),
        );
    }
}

/// The transposed Vandermonde sums are linear in the base segment.
proof fn lemma_vand_prefix_affine(
    y1: Seq<nat>,
    y2: Seq<nat>,
    c: nat,
    p: nat,
    j: int,
    i: int,
)
    requires
        p > 0,
        y1.len() == y2.len(),
        0 <= i <= y1.len(),
    ensures
        vand_prefix(affine_seq(y1, y2, c, p), j, i, p) == (vand_prefix(y1, j, i, p) + c
            * vand_prefix(y2, j, i, p)) % p,
    decreases i,
{
    if i <= 0 {
        assert(((c as int) * 0) % (p as int) == 0) by (nonlinear_arith)
            requires
                p > 0,
        ;
    } else {
        lemma_vand_prefix_affine(y1, y2, c, p, j, i - 1);
        assert(affine_seq(y1, y2, c, p)[i - 1] == (y1[i - 1] + c * y2[i - 1]) % p);
        lemma_affine_acc(
            vand_prefix(y1, j, i - 1, p) as int,
            vand_prefix(y2, j, i - 1, p) as int,
            y1[i - 1] as int,
            y2[i - 1] as int,
            c as int,
            pow_mod(rs_point(i - 1, p), j, p) as int,
            p as int,
        );
    }
}

/// The base-case phase is linear in the buffer.
proof fn lemma_rev_phase_b_affine<F: Field>(
    pre: Seq<SparseMatrix<F>>,
    post: Seq<SparseMatrix<F>>,
    b1: Seq<nat>,
    b2: Seq<nat>,
    c: nat,
    p: nat,
)
    requires
        p > 0,
        rev_chain_wf(pre, post),
        b1.len() == b2.len(),
        b1.len() == pre[0].rows + post[0].rows + post[0].cols,
    ensures
        rev_phase_b(pre, post, affine_seq(b1, b2, c, p), p) == affine_seq(
            rev_phase_b(pre, post, b1, p),
            rev_phase_b(pre, post, b2, p),
            c,
            p,
        ),
{
    let k = pre.len() as int;
    lemma_rev_positions(pre, post, k - 1);
    let bz = rev_z(pre, k - 1);
    let nf = post[k - 1].rows as int;
    let y1 = b1.subrange(bz, bz + nf);
    let y2 = b2.subrange(bz, bz + nf);
    lemma_affine_subrange(b1, b2, c, p, bz, bz + nf);
    assert forall|i: int|
        0 <= i < b1.len() implies rev_phase_b(pre, post, affine_seq(b1, b2, c, p), p)[i]
        == affine_seq(rev_phase_b(pre, post, b1, p), rev_phase_b(pre, post, b2, p), c, p)[i] by {
        if bz <= i < bz + pre[k - 1].cols {
            lemma_vand_prefix_affine(y1, y2, c, p, i - bz, y1.len() as int);
            assert(vand_t(affine_seq(y1, y2, c, p), pre[k - 1].cols as nat, p)[i - bz]
                == vand_prefix(affine_seq(y1, y2, c, p), i - bz, y1.len() as int, p));
        }
    }
    assert(rev_phase_b(pre, post, affine_seq(b1, b2, c, p), p) =~= affine_seq(
        rev_phase_b(pre, post, b1, p),
        rev_phase_b(pre, post, b2, p),
        c,
        p,
    ));
}

/// The backward precode phase is linear in the buffer.
proof fn lemma_rev_phase_c_affine<F: Field>(
    pre: Seq<SparseMatrix<F>>,
    post: Seq<SparseMatrix<F>>,
    b1: Seq<nat>,
    b2: Seq<nat>,
    c: nat,
    p: nat,
    j: int,
)
    requires
        p > 0,
        rev_chain_wf(pre, post),
        b1.len() == b2.len(),
        b1.len() == pre[0].rows + post[0].rows + post[0].cols,
        0 <= j <= pre.len(),
    ensures
        rev_phase_c(pre, post, affine_seq(b1, b2, c, p), p, j) == affine_seq(
            rev_phase_c(pre, post, b1, p, j),
            rev_phase_c(pre, post, b2, p, j),
            c,
            p,
        ),
        rev_phase_c(pre, post, b1, p, j).len() == b1.len(),
        rev_phase_c(pre, post, b2, p, j).len() == b2.len(),
    decreases pre.len() - j,
{
    if j >= pre.len() {
    } else {
        lemma_rev_phase_c_affine(pre, post, b1, b2, c, p, j + 1);
        lemma_rev_positions(pre, post, j);
        let c1 = rev_phase_c(pre, post, b1, p, j + 1);
        let c2 = rev_phase_c(pre, post, b2, p, j + 1);
        let z = rev_z(pre, j);
        assert(z + pre[j].cols <= b1.len()) by {
            if j < pre.len() - 1 {
                assert(rev_width_ok(pre, post, j));
            }
        }
        lemma_affine_subrange(c1, c2, c, p, z, z + pre[j].cols);
        lemma_mat_mul_affine(
            pre[j],
            c1.subrange(z, z + pre[j].cols),
            c2.subrange(z, z + pre[j].cols),
            c,
            p,
        );
        lemma_overwrite_add_affine(
            c1,
            c2,
            mat_mul_spec(pre[j], c1.subrange(z, z + pre[j].cols), p),
            mat_mul_spec(pre[j], c2.subrange(z, z + pre[j].cols), p),
            c,
            p,
            rev_x(pre, j),
        );
    }
}

/// Linearity of the reverse encoder: reverse-encoding `x + c * y` yields
/// the same affine combination of the reverse encodings of `x` and of `y`.
pub proof fn lemma_rev_spec_affine<F: Field>(
    pre: Seq<SparseMatrix<F>>,
    post: Seq<SparseMatrix<F>>,
    b1: Seq<nat>,
    b2: Seq<nat>,
    c: nat,
    p: nat,
)
    requires
        p > 0,
        rev_chain_wf(pre, post),
        b1.len() == b2.len(),
        b1.len() == pre[0].rows + post[0].rows + post[0].cols,
    ensures
        rev_spec(pre, post, affine_seq(b1, b2, c, p), p) == affine_seq(
            rev_spec(pre, post, b1, p),
            rev_spec(pre, post, b2, p),
            c,
            p,
        ),
{
    let k = pre.len() as int;
    lemma_rev_phase_a_affine(pre, post, b1, b2, c, p, k);
    let a1 = rev_phase_a(pre, post, b1, p, k);
    let a2 = rev_phase_a(pre, post, b2, p, k);
    lemma_rev_phase_b_affine(pre, post, a1, a2, c, p);
    let bb1 = rev_phase_b(pre, post, a1, p);
    let bb2 = rev_phase_b(pre, post, a2, p);
    assert(bb1.len() == b1.len() && bb2.len() == b2.len());
    lemma_rev_phase_c_affine(pre, post, bb1, bb2, c, p, 0);
}

} // verus!
