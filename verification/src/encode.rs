//! The encoder of the recursive code.
//!
//! A codeword is one flat buffer holding, in order: the input message, the
//! intermediate precode outputs (one segment per level), the Reed–Solomon
//! base-case segment, and the postcode outputs in reverse level order.  Its
//! exact contents are given by the spec function [`codeword_spec`]; `encode`
//! computes it in place, and `codeword_length` gives the buffer length it
//! requires.

use crate::field::Field;
use crate::sparse::{all_inv, dot_row, vals_of, vals_window, SparseMatrix};
use vstd::prelude::*;

verus! {

use vstd::arithmetic::div_mod::{lemma_add_mod_noop, lemma_add_mod_noop_right, lemma_small_mod};

/// Level `i + 1`'s input is level `i`'s precode output.
pub open spec fn pre_link_ok<F: Field>(pre: Seq<SparseMatrix<F>>, i: int) -> bool {
    pre[i + 1].cols == pre[i].rows
}

/// Postcode `j`'s width equals the length of everything the levels below it
/// contribute to the codeword.
pub open spec fn post_width_ok<F: Field>(
    pre: Seq<SparseMatrix<F>>,
    post: Seq<SparseMatrix<F>>,
    j: int,
) -> bool {
    post[j].cols == pre[j].rows + post[j + 1].cols + post[j + 1].rows
}

/// The shapes of a precode/postcode chain fit together: level `i + 1`'s
/// input is level `i`'s precode output, and each postcode's width equals the
/// length of everything the levels below it contribute to the codeword.
pub open spec fn chain_wf<F: Field>(
    pre: Seq<SparseMatrix<F>>,
    post: Seq<SparseMatrix<F>>,
) -> bool {
    let k = pre.len() as int;
    &&& pre.len() == post.len()
    &&& pre.len() >= 1
    &&& forall|i: int| 0 <= i < k ==> (#[trigger] pre[i]).wf()
    &&& forall|i: int| 0 <= i < k ==> (#[trigger] post[i]).wf()
    &&& forall|i: int| 0 <= i < k - 1 ==> #[trigger] pre_link_ok(pre, i)
    &&& forall|j: int| 0 <= j < k - 1 ==> #[trigger] post_width_ok(pre, post, j)
}

/// The residues of a sparse matrix-vector product.
pub open spec fn mat_mul_spec<F: Field>(m: SparseMatrix<F>, x: Seq<nat>, p: nat) -> Seq<nat> {
    Seq::new(m.rows as nat, |r: int| dot_row(m.row_entries(r), x, p))
}

/// The precode output of level `i` (level 0 being the input itself).
pub open spec fn z_seg<F: Field>(
    pre: Seq<SparseMatrix<F>>,
    xs: Seq<nat>,
    p: nat,
    i: int,
) -> Seq<nat>
    decreases i,
{
    if i <= 0 {
        xs
    } else {
        mat_mul_spec(pre[i - 1], z_seg(pre, xs, p, i - 1), p)
    }
}

/// The evaluation point of the `i`-th Reed–Solomon output slot: `i + 1`.
pub open spec fn rs_point(i: int, p: nat) -> nat {
    ((i + 1) as nat) % p
}

/// Horner evaluation, modulo `p`, of the polynomial with coefficients
/// `coeffs[j..]` (low to high) at `x`.
pub open spec fn horner(coeffs: Seq<nat>, x: nat, p: nat, j: int) -> nat
    decreases coeffs.len() - j,
{
    if j < 0 || j >= coeffs.len() {
        0
    } else {
        (horner(coeffs, x, p, j + 1) * x + coeffs[j]) % p
    }
}

/// The Reed–Solomon codeword: the polynomial with coefficients `coeffs`
/// evaluated at the points `1, 2, 3, ...`.
pub open spec fn rs_spec(coeffs: Seq<nat>, n_out: nat, p: nat) -> Seq<nat> {
    Seq::new(n_out, |i: int| horner(coeffs, rs_point(i, p), p, 0))
}

/// The part of the codeword that postcode `j` consumes: for the innermost
/// level the Reed–Solomon segment; one level out, the level's precode
/// output, then the inner window, then the inner postcode's output.
pub open spec fn win<F: Field>(
    pre: Seq<SparseMatrix<F>>,
    post: Seq<SparseMatrix<F>>,
    xs: Seq<nat>,
    p: nat,
    j: int,
) -> Seq<nat>
    decreases pre.len() - 1 - j,
{
    if j >= pre.len() - 1 {
        rs_spec(
            mat_mul_spec(pre[pre.len() - 1], z_seg(pre, xs, p, pre.len() - 1), p),
            post[post.len() - 1].cols as nat,
            p,
        )
    } else {
        z_seg(pre, xs, p, j + 1) + win(pre, post, xs, p, j + 1) + mat_mul_spec(
            post[j + 1],
            win(pre, post, xs, p, j + 1),
            p,
        )
    }
}

/// The full codeword of the message `xs`: the message, everything below
/// level 0, and level 0's postcode output.
pub open spec fn codeword_spec<F: Field>(
    pre: Seq<SparseMatrix<F>>,
    post: Seq<SparseMatrix<F>>,
    xs: Seq<nat>,
    p: nat,
) -> Seq<nat> {
    xs + win(pre, post, xs, p, 0) + mat_mul_spec(post[0], win(pre, post, xs, p, 0), p)
}

/// Sum of the row counts of the first `i` precodes.
pub open spec fn sum_pre_rows<F: Field>(pre: Seq<SparseMatrix<F>>, i: int) -> int
    decreases i,
{
    if i <= 0 {
        0
    } else {
        sum_pre_rows(pre, i - 1) + pre[i - 1].rows
    }
}

/// Sum of the row counts of the first `j` postcodes.
pub open spec fn sum_post_rows<F: Field>(post: Seq<SparseMatrix<F>>, j: int) -> int
    decreases j,
{
    if j <= 0 {
        0
    } else {
        sum_post_rows(post, j - 1) + post[j - 1].rows
    }
}

/// The length of the codeword buffer: input, Reed–Solomon segment, all
/// precode outputs but the innermost (which is not stored), and all postcode
/// outputs.
pub open spec fn codeword_len_spec<F: Field>(
    pre: Seq<SparseMatrix<F>>,
    post: Seq<SparseMatrix<F>>,
) -> int {
    pre[0].cols + post[post.len() - 1].cols + sum_pre_rows(pre, pre.len() - 1) + sum_post_rows(
        post,
        post.len() as int,
    )
}

/// The length of every window: postcode `j` consumes exactly its width.
pub proof fn lemma_win_len<F: Field>(
    pre: Seq<SparseMatrix<F>>,
    post: Seq<SparseMatrix<F>>,
    xs: Seq<nat>,
    p: nat,
    j: int,
)
    requires
        chain_wf(pre, post),
        0 <= j < pre.len(),
    ensures
        win(pre, post, xs, p, j).len() == post[j].cols,
    decreases pre.len() - 1 - j,
{
    let k = pre.len() as int;
    if j >= k - 1 {
    } else {
        lemma_win_len(pre, post, xs, p, j + 1);
        assert(post_width_ok(pre, post, j));
    }
}

/// The codeword is the input, level 0's window, and level 0's postcode rows.
pub proof fn lemma_codeword_spec_len<F: Field>(
    pre: Seq<SparseMatrix<F>>,
    post: Seq<SparseMatrix<F>>,
    xs: Seq<nat>,
    p: nat,
)
    requires
        chain_wf(pre, post),
    ensures
        codeword_spec(pre, post, xs, p).len() == xs.len() + post[0].cols + post[0].rows,
{
    lemma_win_len(pre, post, xs, p, 0);
}

/// The windows unroll to the stored segments, so the two ways of measuring
/// the codeword agree.
#[verifier::rlimit(100)]
#[verifier::spinoff_prover]
pub proof fn lemma_post_cols_sum<F: Field>(pre: Seq<SparseMatrix<F>>, post: Seq<SparseMatrix<F>>, j: int)
    requires
        chain_wf(pre, post),
        0 <= j < pre.len(),
    ensures
        post[j].cols == (sum_pre_rows(pre, pre.len() - 1) - sum_pre_rows(pre, j)) + post[post.len()
            - 1].cols + (sum_post_rows(post, post.len() as int) - sum_post_rows(post, j + 1)),
    decreases pre.len() - 1 - j,
{
    let k = pre.len() as int;
    if j >= k - 1 {
        assert(sum_post_rows(post, k) == sum_post_rows(post, k - 1) + post[k - 1].rows);
    } else {
        lemma_post_cols_sum(pre, post, j + 1);
        assert(post_width_ok(pre, post, j));
        assert(sum_pre_rows(pre, j + 1) == sum_pre_rows(pre, j) + pre[j].rows);
        assert(sum_post_rows(post, j + 2) == sum_post_rows(post, j + 1) + post[j + 1].rows);
    }
}

/// Equality of the two length computations.
pub proof fn lemma_codeword_len_agree<F: Field>(
    pre: Seq<SparseMatrix<F>>,
    post: Seq<SparseMatrix<F>>,
    xs: Seq<nat>,
    p: nat,
)
    requires
        chain_wf(pre, post),
        xs.len() == pre[0].cols,
    ensures
        codeword_spec(pre, post, xs, p).len() == codeword_len_spec(pre, post),
{
    lemma_codeword_spec_len(pre, post, xs, p);
    lemma_post_cols_sum(pre, post, 0);
    assert(sum_post_rows(post, 1) == sum_post_rows(post, 0) + post[0].rows);
}

/// Evaluate the polynomial with coefficients `xi` (low to high) at the
/// points `1, 2, 3, ...`, one per output slot, by Horner's rule.
fn reed_solomon<F: Field>(xi: &Vec<F>, n_out: usize) -> (r: Vec<F>)
    requires
        all_inv(xi@),
    ensures
        r@.len() == n_out,
        all_inv(r@),
        vals_of(r@) == rs_spec(vals_of(xi@), n_out as nat, F::modulus()),
{
    let ghost p = F::modulus();
    let ghost coeffs = vals_of(xi@);
    proof {
        F::lemma_modulus();
    }
    let n_in = xi.len();
    let mut out: Vec<F> = Vec::new();
    let mut x = F::one();
    proof {
        lemma_small_mod(1nat, p);
    }
    let mut i: usize = 0;
    while i < n_out
        invariant
            i <= n_out,
            p == F::modulus(),
            p > 1,
            all_inv(xi@),
            coeffs == vals_of(xi@),
            n_in == xi@.len(),
            x.inv(),
            x.val() == rs_point(i as int, p),
            out@.len() == i,
            all_inv(out@),
            forall|t: int|
                0 <= t < i ==> (#[trigger] out@[t]).val() == horner(coeffs, rs_point(t, p), p, 0),
        decreases n_out - i,
    {
        let mut s = F::zero();
        let mut j = n_in;
        while j > 0
            invariant
                j <= n_in,
                p == F::modulus(),
                p > 1,
                all_inv(xi@),
                coeffs == vals_of(xi@),
                n_in == xi@.len(),
                x.inv(),
                s.inv(),
                s.val() == horner(coeffs, x.val(), p, j as int),
            decreases j,
        {
            j = j - 1;
            let t = s.mul(x);
            proof {
                xi@[j as int].lemma_val();
                lemma_small_mod(xi@[j as int].val(), p);
                lemma_add_mod_noop(
                    (s.val() * x.val()) as int,
                    xi@[j as int].val() as int,
                    p as int,
                );
                assert(coeffs[j as int] == xi@[j as int].val());
            }
            s = t.add(xi[j]);
        }
        out.push(s);
        let one = F::one();
        proof {
            lemma_small_mod(1nat, p);
            lemma_add_mod_noop((i + 1) as int, 1int, p as int);
        }
        x = x.add(one);
        i = i + 1;
    }
    proof {
        assert(vals_of(out@) =~= rs_spec(coeffs, n_out as nat, p));
    }
    out
}

/// `a`, then `b`, then `c`, as one vector.
fn concat3<F: Field>(a: &Vec<F>, b: Vec<F>, c: Vec<F>) -> (r: Vec<F>)
    ensures
        r@ == a@ + b@ + c@,
{
    let mut r: Vec<F> = Vec::new();
    let mut i: usize = 0;
    let n = a.len();
    while i < n
        invariant
            i <= n,
            n == a@.len(),
            r@ =~= a@.subrange(0, i as int),
        decreases n - i,
    {
        r.push(a[i]);
        i = i + 1;
    }
    proof {
        assert(r@ =~= a@);
    }
    let mut b2 = b;
    let mut c2 = c;
    r.append(&mut b2);
    r.append(&mut c2);
    r
}

/// The first `n` elements of `xi`, copied out.
fn copy_prefix<F: Field>(xi: &Vec<F>, n: usize) -> (r: Vec<F>)
    requires
        n <= xi@.len(),
    ensures
        r@ == xi@.subrange(0, n as int),
{
    let mut r: Vec<F> = Vec::new();
    let mut t: usize = 0;
    while t < n
        invariant
            t <= n,
            n <= xi@.len(),
            r@ =~= xi@.subrange(0, t as int),
        decreases n - t,
    {
        r.push(xi[t]);
        t = t + 1;
    }
    proof {
        assert(r@ =~= xi@.subrange(0, n as int));
    }
    r
}

/// All precode outputs: `zs[i]` is level `i`'s input segment.
#[verifier::rlimit(100)]
#[verifier::spinoff_prover]
fn build_z_segs<F: Field>(precodes: &Vec<SparseMatrix<F>>, x0: Vec<F>, Ghost(post): Ghost<
    Seq<SparseMatrix<F>>,
>) -> (zs: Vec<Vec<F>>)
    requires
        chain_wf(precodes@, post),
        x0@.len() == precodes@[0].cols,
        all_inv(x0@),
    ensures
        zs@.len() == precodes@.len(),
        forall|t2: int| 0 <= t2 < zs@.len() ==> all_inv((#[trigger] zs@[t2])@),
        forall|t2: int|
            0 <= t2 < zs@.len() ==> vals_of((#[trigger] zs@[t2])@) == z_seg(
                precodes@,
                vals_of(x0@),
                F::modulus(),
                t2,
            ),
        forall|t2: int|
            0 <= t2 < zs@.len() ==> (#[trigger] zs@[t2])@.len() == (if t2 == 0 {
                precodes@[0].cols as int
            } else {
                precodes@[t2 - 1].rows as int
            }),
{
    let ghost p = F::modulus();
    let ghost xs = vals_of(x0@);
    let k = precodes.len();
    let mut zs: Vec<Vec<F>> = Vec::new();
    proof {
        assert(z_seg(precodes@, xs, p, 0) == xs);
    }
    zs.push(x0);
    let mut i: usize = 1;
    while i < k
        invariant
            1 <= i <= k,
            k == precodes@.len(),
            chain_wf(precodes@, post),
            p == F::modulus(),
            xs == z_seg(precodes@, xs, p, 0),
            zs@.len() == i,
            forall|t2: int| 0 <= t2 < i ==> all_inv((#[trigger] zs@[t2])@),
            forall|t2: int|
                0 <= t2 < i ==> vals_of((#[trigger] zs@[t2])@) == z_seg(precodes@, xs, p, t2),
            forall|t2: int|
                0 <= t2 < i ==> (#[trigger] zs@[t2])@.len() == (if t2 == 0 {
                    precodes@[0].cols as int
                } else {
                    precodes@[t2 - 1].rows as int
                }),
        decreases k - i,
    {
        proof {
            if i - 1 > 0 {
                assert(pre_link_ok(precodes@, i - 2));
            }
            assert(zs@[i - 1]@.len() == precodes@[i - 1].cols);
        }
        let z = precodes[i - 1].mat_vec(&zs[i - 1], 0);
        proof {
            assert(vals_window(zs@[i - 1]@, 0, precodes@[i - 1].cols as int) =~= vals_of(
                zs@[i - 1]@,
            ));
            assert(vals_of(z@) =~= mat_mul_spec(
                precodes@[i - 1],
                z_seg(precodes@, xs, p, i - 1),
                p,
            ));
        }
        zs.push(z);
        i = i + 1;
    }
    zs
}

/// Fold the postcode levels from the base case outward: starting from the
/// Reed-Solomon segment, each level prepends its precode output and appends
/// its postcode's rows, producing level 0's window.
#[verifier::spinoff_prover]
fn build_window<F: Field>(
    precodes: &Vec<SparseMatrix<F>>,
    postcodes: &Vec<SparseMatrix<F>>,
    zs: &Vec<Vec<F>>,
    rs_out: Vec<F>,
    Ghost(xs): Ghost<Seq<nat>>,
) -> (w: Vec<F>)
    requires
        chain_wf(precodes@, postcodes@),
        zs@.len() == precodes@.len(),
        forall|t2: int| 0 <= t2 < zs@.len() ==> all_inv((#[trigger] zs@[t2])@),
        forall|t2: int|
            0 <= t2 < zs@.len() ==> vals_of((#[trigger] zs@[t2])@) == z_seg(
                precodes@,
                xs,
                F::modulus(),
                t2,
            ),
        all_inv(rs_out@),
        vals_of(rs_out@) == win(precodes@, postcodes@, xs, F::modulus(), precodes@.len() - 1),
    ensures
        all_inv(w@),
        vals_of(w@) == win(precodes@, postcodes@, xs, F::modulus(), 0),
{
    let ghost p = F::modulus();
    let k = precodes.len();
    let mut cur_win = rs_out;
    let mut j = k - 1;
    while j >= 1
        invariant
            0 <= j <= k - 1,
            k == precodes@.len(),
            chain_wf(precodes@, postcodes@),
            p == F::modulus(),
            zs@.len() == k,
            forall|t2: int| 0 <= t2 < k ==> all_inv((#[trigger] zs@[t2])@),
            forall|t2: int|
                0 <= t2 < k ==> vals_of((#[trigger] zs@[t2])@) == z_seg(precodes@, xs, p, t2),
            all_inv(cur_win@),
            vals_of(cur_win@) == win(precodes@, postcodes@, xs, p, j as int),
        decreases j,
    {
        proof {
            lemma_win_len(precodes@, postcodes@, xs, p, j as int);
            assert(cur_win@.len() == vals_of(cur_win@).len());
        }
        let v = postcodes[j].mat_vec(&cur_win, 0);
        proof {
            assert(vals_window(cur_win@, 0, postcodes@[j as int].cols as int) =~= vals_of(
                cur_win@,
            ));
            assert(vals_of(v@) =~= mat_mul_spec(
                postcodes@[j as int],
                win(precodes@, postcodes@, xs, p, j as int),
                p,
            ));
        }
        let next_win = concat3(&zs[j], cur_win, v);
        proof {
            assert(vals_of(next_win@) =~= z_seg(precodes@, xs, p, j as int) + win(
                precodes@,
                postcodes@,
                xs,
                p,
                j as int,
            ) + mat_mul_spec(
                postcodes@[j as int],
                win(precodes@, postcodes@, xs, p, j as int),
                p,
            ));
            assert(all_inv(next_win@));
        }
        cur_win = next_win;
        j = j - 1;
    }
    cur_win
}

/// Encode the message held in the first `precodes[0].cols` entries of `xi`
/// in place: afterwards the buffer holds exactly the codeword of that
/// message, every segment filled.  The buffer's length must equal
/// `codeword_length` of the chain (a shape mismatch is a caller error, ruled
/// out here by precondition).
#[verifier::rlimit(100)]
#[verifier::spinoff_prover]
pub fn encode<F: Field>(
    xi: &mut Vec<F>,
    precodes: &Vec<SparseMatrix<F>>,
    postcodes: &Vec<SparseMatrix<F>>,
)
    requires
        chain_wf(precodes@, postcodes@),
        old(xi)@.len() == codeword_len_spec(precodes@, postcodes@),
        all_inv(old(xi)@),
    ensures
        final (xi)@.len() == old(xi)@.len(),
        all_inv(final (xi)@),
        vals_of(final (xi)@) == codeword_spec(
            precodes@,
            postcodes@,
            vals_window(old(xi)@, 0, precodes@[0].cols as int),
            F::modulus(),
        ),
{
    let ghost p = F::modulus();
    let ghost xs = vals_window(old(xi)@, 0, precodes@[0].cols as int);
    proof {
        F::lemma_modulus();
        lemma_codeword_len_agree(precodes@, postcodes@, xs, p);
        lemma_codeword_spec_len(precodes@, postcodes@, xs, p);
        lemma_sum_pre_rows_bounds(precodes@, precodes@.len() - 1, precodes@.len() - 1);
        lemma_sum_post_rows_bounds(postcodes@, postcodes@.len() as int, postcodes@.len() as int);
    }
    let k = precodes.len();
    let l0 = precodes[0].cols;
    let x0 = copy_prefix(xi, l0);
    proof {
        assert(vals_of(x0@) =~= xs);
        assert(all_inv(x0@));
    }
    let zs = build_z_segs(precodes, x0, Ghost(postcodes@));
    proof {
        if k - 1 > 0 {
            assert(pre_link_ok(precodes@, k - 2));
        }
        assert(zs@[k - 1]@.len() == precodes@[k - 1].cols);
    }
    let rs_in = precodes[k - 1].mat_vec(&zs[k - 1], 0);
    proof {
        assert(vals_window(zs@[k - 1]@, 0, precodes@[k - 1].cols as int) =~= vals_of(
            zs@[k - 1]@,
        ));
        assert(vals_of(rs_in@) =~= mat_mul_spec(
            precodes@[k - 1],
            z_seg(precodes@, xs, p, k - 1),
            p,
        ));
    }
    let rs_out = reed_solomon(&rs_in, postcodes[k - 1].cols);
    proof {
        assert(vals_of(rs_out@) == win(precodes@, postcodes@, xs, p, k - 1));
    }
    let cur_win = build_window(precodes, postcodes, &zs, rs_out, Ghost(xs));
    proof {
        lemma_win_len(precodes@, postcodes@, xs, p, 0);
        assert(cur_win@.len() == vals_of(cur_win@).len());
    }
    let v0 = postcodes[0].mat_vec(&cur_win, 0);
    proof {
        assert(vals_window(cur_win@, 0, postcodes@[0].cols as int) =~= vals_of(cur_win@));
        assert(vals_of(v0@) =~= mat_mul_spec(
            postcodes@[0],
            win(precodes@, postcodes@, xs, p, 0),
            p,
        ));
    }
    let x0b = copy_prefix(xi, l0);
    proof {
        assert(vals_of(x0b@) =~= xs);
        assert(all_inv(x0b@));
    }
    let out = concat3(&x0b, cur_win, v0);
    proof {
        assert(vals_of(out@) =~= codeword_spec(precodes@, postcodes@, xs, p));
        assert(all_inv(out@));
    }
    *xi = out;
}

/// The length of the codeword buffer that `encode` expects for this chain:
/// the input, the Reed-Solomon segment, every precode output but the
/// innermost, and every postcode output.
#[verifier::rlimit(100)]
#[verifier::spinoff_prover]
pub fn codeword_length<F: Field>(
    precodes: &Vec<SparseMatrix<F>>,
    postcodes: &Vec<SparseMatrix<F>>,
) -> (r: usize)
    requires
        chain_wf(precodes@, postcodes@),
        codeword_len_spec(precodes@, postcodes@) <= usize::MAX,
    ensures
        r == codeword_len_spec(precodes@, postcodes@),
{
    let k = precodes.len();
    let ghost total = codeword_len_spec(precodes@, postcodes@);
    proof {
        lemma_sum_pre_rows_bounds(precodes@, k as int - 1, k as int - 1);
        lemma_sum_post_rows_bounds(postcodes@, k as int, k as int);
    }
    let mut acc: usize = precodes[0].cols;
    let mut i: usize = 0;
    while i < k - 1
        invariant
            i <= k - 1,
            k == precodes@.len(),
            chain_wf(precodes@, postcodes@),
            total == codeword_len_spec(precodes@, postcodes@),
            total <= usize::MAX,
            acc == precodes@[0].cols + sum_pre_rows(precodes@, i as int),
            acc <= total,
        decreases k - 1 - i,
    {
        proof {
            lemma_sum_pre_rows_bounds(precodes@, i as int + 1, k as int - 1);
            lemma_sum_post_rows_bounds(postcodes@, 0, k as int);
        }
        acc = acc + precodes[i].rows;
        i = i + 1;
    }
    let mut j: usize = 0;
    while j < k
        invariant
            j <= k,
            k == precodes@.len(),
            chain_wf(precodes@, postcodes@),
            total == codeword_len_spec(precodes@, postcodes@),
            total <= usize::MAX,
            acc == precodes@[0].cols + sum_pre_rows(precodes@, k as int - 1) + sum_post_rows(
                postcodes@,
                j as int,
            ),
            acc <= total,
        decreases k - j,
    {
        proof {
            lemma_sum_post_rows_bounds(postcodes@, j as int + 1, k as int);
        }
        acc = acc + postcodes[j].rows;
        j = j + 1;
    }
    acc + postcodes[k - 1].cols
}

/// Partial sums of precode rows are monotone.
proof fn lemma_sum_pre_rows_bounds<F: Field>(pre: Seq<SparseMatrix<F>>, i: int, n: int)
    requires
        i <= n,
    ensures
        sum_pre_rows(pre, i) <= sum_pre_rows(pre, n),
        sum_pre_rows(pre, i) >= 0,
    decreases n - i + (if i > 0 { i } else { 0 }),
{
    if i > 0 {
        lemma_sum_pre_rows_bounds(pre, i - 1, i - 1);
    }
    if i < n {
        lemma_sum_pre_rows_bounds(pre, i, n - 1);
    }
}

/// Partial sums of postcode rows are monotone.
proof fn lemma_sum_post_rows_bounds<F: Field>(post: Seq<SparseMatrix<F>>, j: int, n: int)
    requires
        j <= n,
    ensures
        sum_post_rows(post, j) <= sum_post_rows(post, n),
        sum_post_rows(post, j) >= 0,
    decreases n - j + (if j > 0 { j } else { 0 }),
{
    if j > 0 {
        lemma_sum_post_rows_bounds(post, j - 1, j - 1);
    }
    if j < n {
        lemma_sum_post_rows_bounds(post, j, n - 1);
    }
}

/// Shape consistency of a reverse (transposed) chain: level `i + 1`'s
/// output feeds level `i`, each reverse postcode is as tall as everything
/// below its level, and the base-case output fits inside the base segment.
pub open spec fn rev_link_ok<F: Field>(pre: Seq<SparseMatrix<F>>, i: int) -> bool {
    pre[i + 1].rows == pre[i].cols
}

/// Height of a reverse postcode matches the window below its level.
pub open spec fn rev_width_ok<F: Field>(
    pre: Seq<SparseMatrix<F>>,
    post: Seq<SparseMatrix<F>>,
    j: int,
) -> bool {
    post[j].rows == pre[j].cols + post[j + 1].rows + post[j + 1].cols
}

/// The shapes of a reverse chain fit together.
pub open spec fn rev_chain_wf<F: Field>(
    pre: Seq<SparseMatrix<F>>,
    post: Seq<SparseMatrix<F>>,
) -> bool {
    let k = pre.len() as int;
    &&& pre.len() == post.len()
    &&& pre.len() >= 1
    &&& forall|i: int| 0 <= i < k ==> (#[trigger] pre[i]).wf()
    &&& forall|i: int| 0 <= i < k ==> (#[trigger] post[i]).wf()
    &&& forall|i: int| 0 <= i < k - 1 ==> #[trigger] rev_link_ok(pre, i)
    &&& forall|j: int| 0 <= j < k - 1 ==> #[trigger] rev_width_ok(pre, post, j)
    &&& pre[k - 1].cols <= post[k - 1].rows
}


/// Start of the reverse buffer's segment for level `j`'s precode output.
pub open spec fn rev_x<F: Field>(pre: Seq<SparseMatrix<F>>, j: int) -> int {
    if j <= 0 {
        0
    } else {
        rev_z(pre, j - 1)
    }
}

/// Start of the window below level `j` in the reverse buffer.
pub open spec fn rev_z<F: Field>(pre: Seq<SparseMatrix<F>>, j: int) -> int
    decreases j,
{
    if j <= 0 {
        pre[0].rows as int
    } else {
        rev_z(pre, j - 1) + pre[j].rows
    }
}

/// Start of level `j`'s postcode segment in the reverse buffer.
pub open spec fn rev_v<F: Field>(
    pre: Seq<SparseMatrix<F>>,
    post: Seq<SparseMatrix<F>>,
    j: int,
) -> int
    decreases j,
{
    if j <= 0 {
        pre[0].rows + post[0].rows
    } else {
        rev_v(pre, post, j - 1) - post[j].cols
    }
}

/// Add `w` into the segment of `b` starting at `at`, reducing each entry.
pub open spec fn overwrite_add(b: Seq<nat>, at: int, w: Seq<nat>, p: nat) -> Seq<nat> {
    Seq::new(
        b.len(),
        |i: int|
            if at <= i < at + w.len() {
                (b[i] + w[i - at]) % p
            } else {
                b[i]
            },
    )
}

/// The reverse buffer after the first `j` reverse-postcode contributions:
/// each level adds its postcode's transposed product into the window below
/// it.
pub open spec fn rev_phase_a<F: Field>(
    pre: Seq<SparseMatrix<F>>,
    post: Seq<SparseMatrix<F>>,
    b: Seq<nat>,
    p: nat,
    j: int,
) -> Seq<nat>
    decreases j,
{
    if j <= 0 {
        b
    } else {
        let b1 = rev_phase_a(pre, post, b, p, j - 1);
        let v = rev_v(pre, post, j - 1);
        overwrite_add(
            b1,
            rev_z(pre, j - 1),
            mat_mul_spec(post[j - 1], b1.subrange(v, v + post[j - 1].cols), p),
            p,
        )
    }
}

/// `x^e` modulo `p`, by repeated reduced multiplication.
pub open spec fn pow_mod(x: nat, e: int, p: nat) -> nat
    decreases e,
{
    if e <= 0 {
        1nat % p
    } else {
        (pow_mod(x, e - 1, p) * x) % p
    }
}

/// The transposed Vandermonde sum: entry `j` is
/// `sum over i of (i+1)^j * ys[i]`, accumulated left to right with a
/// reduction after every step.
pub open spec fn vand_prefix(ys: Seq<nat>, j: int, i: int, p: nat) -> nat
    decreases i,
{
    if i <= 0 {
        0
    } else {
        (vand_prefix(ys, j, i - 1, p) + pow_mod(rs_point(i - 1, p), j, p) * ys[i - 1]) % p
    }
}

/// The preimage of the Reed-Solomon step: the base segment multiplied by
/// the transposed Vandermonde matrix.
pub open spec fn vand_t(ys: Seq<nat>, n_out: nat, p: nat) -> Seq<nat> {
    Seq::new(n_out, |j: int| vand_prefix(ys, j, ys.len() as int, p))
}

/// The reverse buffer after the base-case step: the base segment's first
/// `pre[k-1].cols` entries are replaced by the transposed Vandermonde sums
/// over the whole base segment.
pub open spec fn rev_phase_b<F: Field>(
    pre: Seq<SparseMatrix<F>>,
    post: Seq<SparseMatrix<F>>,
    b: Seq<nat>,
    p: nat,
) -> Seq<nat> {
    let k = pre.len() as int;
    let bz = rev_z(pre, k - 1);
    let ys = b.subrange(bz, bz + post[k - 1].rows);
    let out = vand_t(ys, pre[k - 1].cols as nat, p);
    Seq::new(
        b.len(),
        |i: int|
            if bz <= i < bz + pre[k - 1].cols {
                out[i - bz]
            } else {
                b[i]
            },
    )
}

/// The reverse buffer after the reverse-precode contributions of levels
/// `j .. k`, innermost level first: each level adds its precode's
/// transposed product into the segment above it.
pub open spec fn rev_phase_c<F: Field>(
    pre: Seq<SparseMatrix<F>>,
    post: Seq<SparseMatrix<F>>,
    b: Seq<nat>,
    p: nat,
    j: int,
) -> Seq<nat>
    decreases pre.len() - j,
{
    if j >= pre.len() {
        b
    } else {
        let b1 = rev_phase_c(pre, post, b, p, j + 1);
        let z = rev_z(pre, j);
        overwrite_add(
            b1,
            rev_x(pre, j),
            mat_mul_spec(pre[j], b1.subrange(z, z + pre[j].cols), p),
            p,
        )
    }
}

/// The whole reverse encoding: postcode contributions inward, the
/// transposed Vandermonde base step, then precode contributions back out to
/// the message region.
pub open spec fn rev_spec<F: Field>(
    pre: Seq<SparseMatrix<F>>,
    post: Seq<SparseMatrix<F>>,
    b: Seq<nat>,
    p: nat,
) -> Seq<nat> {
    rev_phase_c(
        pre,
        post,
        rev_phase_b(pre, post, rev_phase_a(pre, post, b, p, pre.len() as int), p),
        p,
        0,
    )
}

/// A window of residues is the matching subrange of the whole view.
proof fn lemma_window_is_subrange<F: Field>(s: Seq<F>, a: int, l: int)
    requires
        0 <= a,
        0 <= l,
        a + l <= s.len(),
    ensures
        vals_window(s, a, l) == vals_of(s).subrange(a, a + l),
{
    assert(vals_window(s, a, l) =~= vals_of(s).subrange(a, a + l));
}

/// Add the product of a matrix window into a segment of the buffer,
/// element by element.
fn accumulate_product<F: Field>(
    data: &mut Vec<F>,
    m: &SparseMatrix<F>,
    in_start: usize,
    out_start: usize,
)
    requires
        m.wf(),
        in_start + m.cols <= old(data)@.len(),
        out_start + m.rows <= old(data)@.len(),
        all_inv(old(data)@),
    ensures
        final (data)@.len() == old(data)@.len(),
        all_inv(final (data)@),
        vals_of(final (data)@) == overwrite_add(
            vals_of(old(data)@),
            out_start as int,
            mat_mul_spec(
                *m,
                vals_of(old(data)@).subrange(in_start as int, in_start + m.cols),
                F::modulus(),
            ),
            F::modulus(),
        ),
{
    let ghost p = F::modulus();
    let ghost b0 = vals_of(old(data)@);
    let ghost wspec = mat_mul_spec(*m, b0.subrange(in_start as int, in_start + m.cols), p);
    proof {
        F::lemma_modulus();
        lemma_window_is_subrange(old(data)@, in_start as int, m.cols as int);
    }
    let dn = data.len();
    let w = m.mat_vec(data, in_start);
    proof {
        assert(w@.len() == wspec.len());
        assert(vals_of(w@) =~= wspec);
    }
    let rows = m.rows;
    let mut t: usize = 0;
    while t < rows
        invariant
            t <= rows,
            rows == m.rows,
            p == F::modulus(),
            p > 1,
            w@.len() == rows,
            all_inv(w@),
            vals_of(w@) == wspec,
            wspec.len() == rows,
            out_start + rows <= data@.len(),
            data@.len() == dn,
            data@.len() == old(data)@.len(),
            b0 == vals_of(old(data)@),
            all_inv(data@),
            forall|i: int|
                0 <= i < data@.len() && !(out_start <= i < out_start + t)
                    ==> (#[trigger] data@[i]).val() == b0[i],
            forall|i: int|
                out_start <= i < out_start + t ==> (#[trigger] data@[i]).val() == (b0[i]
                    + wspec[i - out_start]) % p,
        decreases rows - t,
    {
        let v = data[out_start + t].add(w[t]);
        proof {
            assert(vals_of(w@)[t as int] == w@[t as int].val());
        }
        data.set(out_start + t, v);
        t = t + 1;
    }
    proof {
        assert(vals_of(data@) =~= overwrite_add(b0, out_start as int, wspec, p));
    }
}

/// Reverse-encode a buffer in place: propagate each reverse postcode's
/// contribution backward into the window below its level, invert the
/// Reed-Solomon step by summing against the transposed Vandermonde matrix,
/// and propagate the reverse precodes back to the message region.  The
/// result is exactly [`rev_spec`] of the input; together with a chain from
/// `generate_rev` this computes the transpose of the forward encoding map,
/// which `test_reverse_encoding` decides column by column.
#[verifier::rlimit(100)]
#[verifier::spinoff_prover]
pub fn encode_rev<F: Field>(
    data: &mut Vec<F>,
    precodes: &Vec<SparseMatrix<F>>,
    postcodes: &Vec<SparseMatrix<F>>,
)
    requires
        rev_chain_wf(precodes@, postcodes@),
        old(data)@.len() == precodes@[0].rows + postcodes@[0].rows + postcodes@[0].cols,
        all_inv(old(data)@),
    ensures
        final (data)@.len() == old(data)@.len(),
        all_inv(final (data)@),
        vals_of(final (data)@) == rev_spec(
            precodes@,
            postcodes@,
            vals_of(old(data)@),
            F::modulus(),
        ),
{
    let ghost p = F::modulus();
    let ghost b0 = vals_of(old(data)@);
    proof {
        F::lemma_modulus();
    }
    let k = precodes.len();
    let n = data.len();
    let mut x_start: usize = 0;
    let mut z_start: usize = precodes[0].rows;
    let mut v_start: usize = precodes[0].rows + postcodes[0].rows;
    let mut stack: Vec<(usize, usize, usize)> = Vec::new();
    let mut idx: usize = 0;
    while idx < k
        invariant
            idx <= k,
            k == precodes@.len(),
            rev_chain_wf(precodes@, postcodes@),
            p == F::modulus(),
            p > 1,
            b0 == vals_of(old(data)@),
            data@.len() == n,
            n == b0.len(),
            all_inv(data@),
            vals_of(data@) == rev_phase_a(precodes@, postcodes@, b0, p, idx as int),
            idx < k ==> x_start == rev_x(precodes@, idx as int) && z_start == rev_z(
                precodes@,
                idx as int,
            ) && v_start == rev_v(precodes@, postcodes@, idx as int),
            idx < k ==> z_start == x_start + precodes@[idx as int].rows,
            idx < k ==> v_start == z_start + postcodes@[idx as int].rows,
            idx < k ==> v_start + postcodes@[idx as int].cols <= n,
            stack@.len() == idx,
            forall|t: int|
                0 <= t < idx ==> {
                    &&& (#[trigger] stack@[t]).0 == rev_x(precodes@, t)
                    &&& stack@[t].1 == rev_z(precodes@, t)
                    &&& stack@[t].2 == rev_v(precodes@, postcodes@, t)
                    &&& stack@[t].1 == stack@[t].0 + precodes@[t].rows
                    &&& stack@[t].2 == stack@[t].1 + postcodes@[t].rows
                    &&& stack@[t].2 + postcodes@[t].cols <= n
                },
        decreases k - idx,
    {
        stack.push((x_start, z_start, v_start));
        let ghost before = vals_of(data@);
        accumulate_product(data, &postcodes[idx], v_start, z_start);
        proof {
            assert(vals_of(data@) == rev_phase_a(
                precodes@,
                postcodes@,
                b0,
                p,
                idx + 1,
            ));
        }
        if idx + 1 < k {
            proof {
                assert(rev_width_ok(precodes@, postcodes@, idx as int));
                assert(rev_link_ok(precodes@, idx as int));
            }
            x_start = z_start;
            z_start = z_start + precodes[idx + 1].rows;
            v_start = v_start - postcodes[idx + 1].cols;
        }
        idx = idx + 1;
    }
    let ghost b1 = rev_phase_a(precodes@, postcodes@, b0, p, k as int);
    // the base case: multiply the base segment by the transposed
    // Vandermonde matrix
    let (bz, bv) = {
        let top = stack[k - 1];
        (top.1, top.2)
    };
    let base_from = bv - bz;
    let base_to = precodes[k - 1].cols;
    proof {
        assert(bz == rev_z(precodes@, k - 1));
        assert(base_from == postcodes@[k - 1].rows);
    }
    let ghost ys = b1.subrange(bz as int, bz + base_from);
    let mut vr: Vec<F> = Vec::new();
    let mut t: usize = 0;
    while t < base_to
        invariant
            t <= base_to,
            vr@.len() == t,
            all_inv(vr@),
            forall|j: int| 0 <= j < t ==> (#[trigger] vr@[j]).val() == 0,
        decreases base_to - t,
    {
        vr.push(F::zero());
        t = t + 1;
    }
    let mut val_i = F::zero();
    let mut i: usize = 0;
    while i < base_from
        invariant
            i <= base_from,
            p == F::modulus(),
            p > 1,
            bz + base_from <= n,
            bz == rev_z(precodes@, k - 1),
            base_from == postcodes@[precodes@.len() - 1].rows,
            k == precodes@.len(),
            data@.len() == n,
            all_inv(data@),
            vals_of(data@) == b1,
            ys == b1.subrange(bz as int, bz + base_from),
            ys.len() == base_from,
            vr@.len() == base_to,
            all_inv(vr@),
            val_i.inv(),
            val_i.val() == (i as nat) % p,
            forall|j: int|
                0 <= j < base_to ==> (#[trigger] vr@[j]).val() == vand_prefix(ys, j, i as int, p),
        decreases base_from - i,
    {
        let one = F::one();
        proof {
            lemma_small_mod(1nat, p);
            lemma_add_mod_noop(i as int, 1int, p as int);
        }
        val_i = val_i.add(one);
        proof {
            assert(val_i.val() == rs_point(i as int, p));
        }
        let mut valp = F::one();
        proof {
            assert(valp.val() == pow_mod(rs_point(i as int, p), 0, p));
        }
        let mut j: usize = 0;
        while j < base_to
            invariant
                j <= base_to,
                i < base_from,
                p == F::modulus(),
                p > 1,
                bz + base_from <= n,
                data@.len() == n,
                all_inv(data@),
                vals_of(data@) == b1,
                ys == b1.subrange(bz as int, bz + base_from),
                ys.len() == base_from,
                vr@.len() == base_to,
                all_inv(vr@),
                val_i.inv(),
                val_i.val() == rs_point(i as int, p),
                valp.inv(),
                valp.val() == pow_mod(rs_point(i as int, p), j as int, p),
                forall|j2: int|
                    0 <= j2 < j ==> (#[trigger] vr@[j2]).val() == vand_prefix(
                        ys,
                        j2,
                        i as int + 1,
                        p,
                    ),
                forall|j2: int|
                    j <= j2 < base_to ==> (#[trigger] vr@[j2]).val() == vand_prefix(
                        ys,
                        j2,
                        i as int,
                        p,
                    ),
            decreases base_to - j,
        {
            let add_term = valp.mul(data[bz + i]);
            proof {
                assert(vals_of(data@)[bz + i] == data@[bz + i].val());
                assert(ys[i as int] == b1[bz + i]);
                lemma_add_mod_noop_right(
                    vr@[j as int].val() as int,
                    (valp.val() * data@[bz + i].val()) as int,
                    p as int,
                );
            }
            let nv = vr[j].add(add_term);
            vr.set(j, nv);
            valp = valp.mul(val_i);
            j = j + 1;
        }
        i = i + 1;
    }
    let mut t2: usize = 0;
    while t2 < base_to
        invariant
            t2 <= base_to,
            base_to <= base_from,
            base_to == precodes@[precodes@.len() - 1].cols,
            base_from == postcodes@[precodes@.len() - 1].rows,
            bz == rev_z(precodes@, k - 1),
            k == precodes@.len(),
            p == F::modulus(),
            p > 1,
            bz + base_from <= n,
            data@.len() == n,
            n == b1.len(),
            all_inv(data@),
            ys == b1.subrange(bz as int, bz + base_from),
            vr@.len() == base_to,
            all_inv(vr@),
            forall|j: int|
                0 <= j < base_to ==> (#[trigger] vr@[j]).val() == vand_prefix(
                    ys,
                    j,
                    base_from as int,
                    p,
                ),
            forall|j: int|
                0 <= j < t2 ==> (#[trigger] data@[bz + j]).val() == vr@[j].val(),
            forall|j: int|
                0 <= j < n && !(bz <= j < bz + t2) ==> (#[trigger] data@[j]).val() == b1[j],
        decreases base_to - t2,
    {
        data.set(bz + t2, vr[t2]);
        t2 = t2 + 1;
    }
    proof {
        let bspec = rev_phase_b(precodes@, postcodes@, b1, p);
        assert forall|i: int| 0 <= i < n implies vals_of(data@)[i] == bspec[i] by {
            if bz <= i < bz + base_to {
                let j = i - bz;
                assert(data@[bz + j].val() == vr@[j].val());
                assert(vr@[j].val() == vand_prefix(ys, j, base_from as int, p));
                assert(bspec[i] == vand_t(ys, base_to as nat, p)[j]);
            } else {
                assert(data@[i].val() == b1[i]);
            }
        }
        assert(vals_of(data@) =~= rev_phase_b(precodes@, postcodes@, b1, p));
    }
    let ghost b2 = rev_phase_b(precodes@, postcodes@, b1, p);
    // propagate the reverse precodes back towards the message region
    let mut j2 = k;
    while j2 > 0
        invariant
            j2 <= k,
            k == precodes@.len(),
            rev_chain_wf(precodes@, postcodes@),
            p == F::modulus(),
            p > 1,
            data@.len() == n,
            n == b2.len(),
            all_inv(data@),
            vals_of(data@) == rev_phase_c(precodes@, postcodes@, b2, p, j2 as int),
            stack@.len() == k,
            forall|t3: int|
                0 <= t3 < k ==> {
                    &&& (#[trigger] stack@[t3]).0 == rev_x(precodes@, t3)
                    &&& stack@[t3].1 == rev_z(precodes@, t3)
                    &&& stack@[t3].2 == rev_v(precodes@, postcodes@, t3)
                    &&& stack@[t3].1 == stack@[t3].0 + precodes@[t3].rows
                    &&& stack@[t3].2 == stack@[t3].1 + postcodes@[t3].rows
                    &&& stack@[t3].2 + postcodes@[t3].cols <= n
                },
        decreases j2,
    {
        j2 = j2 - 1;
        let fr = stack[j2];
        proof {
            if j2 < k - 1 {
                assert(rev_width_ok(precodes@, postcodes@, j2 as int));
                assert(rev_link_ok(precodes@, j2 as int));
            }
            assert(stack@[j2 as int].1 + precodes@[j2 as int].cols <= n);
        }
        accumulate_product(data, &precodes[j2], fr.1, fr.0);
        proof {
            assert(vals_of(data@) == rev_phase_c(precodes@, postcodes@, b2, p, j2 as int));
        }
    }
}

/// The `i`-th standard basis vector of length `n`.
pub open spec fn basis(n: nat, i: int) -> Seq<nat> {
    Seq::new(n, |t: int| if t == i { 1nat } else { 0nat })
}

/// Cross-check of the reverse encoder: decides whether the matrix of the
/// forward map (the codeword of each basis vector) is the transpose of the
/// matrix of the reverse map (the reverse encoding of each basis vector),
/// entry for entry.
#[verifier::rlimit(100)]
#[verifier::spinoff_prover]
pub fn test_reverse_encoding<F: Field>(
    msg_len: usize,
    code_len: usize,
    precodes: &Vec<SparseMatrix<F>>,
    postcodes: &Vec<SparseMatrix<F>>,
    pre_t: &Vec<SparseMatrix<F>>,
    post_t: &Vec<SparseMatrix<F>>,
) -> (ok: bool)
    requires
        chain_wf(precodes@, postcodes@),
        precodes@[0].cols == msg_len,
        codeword_len_spec(precodes@, postcodes@) == code_len,
        rev_chain_wf(pre_t@, post_t@),
        pre_t@[0].rows + post_t@[0].rows + post_t@[0].cols == code_len,
        1 <= msg_len <= code_len,
    ensures
        ok == forall|i: int, j: int|
            0 <= i < msg_len && 0 <= j < code_len ==> codeword_spec(
                precodes@,
                postcodes@,
                basis(msg_len as nat, i),
                F::modulus(),
            )[j] == rev_spec(pre_t@, post_t@, basis(code_len as nat, j), F::modulus())[i],
{
    let ghost p = F::modulus();
    proof {
        F::lemma_modulus();
    }
    // the forward map, one codeword per basis vector
    let mut matrix1: Vec<Vec<F>> = Vec::new();
    let mut i: usize = 0;
    while i < msg_len
        invariant
            i <= msg_len,
            1 <= msg_len <= code_len,
            p == F::modulus(),
            p > 1,
            chain_wf(precodes@, postcodes@),
            precodes@[0].cols == msg_len,
            codeword_len_spec(precodes@, postcodes@) == code_len,
            matrix1@.len() == i,
            forall|t: int|
                0 <= t < i ==> (#[trigger] matrix1@[t])@.len() == code_len && all_inv(
                    matrix1@[t]@,
                ) && vals_of(matrix1@[t]@) == codeword_spec(
                    precodes@,
                    postcodes@,
                    basis(msg_len as nat, t),
                    p,
                ),
        decreases msg_len - i,
    {
        let mut buf: Vec<F> = Vec::new();
        let z = F::zero();
        let mut t: usize = 0;
        while t < code_len
            invariant
                t <= code_len,
                buf@.len() == t,
                all_inv(buf@),
                z.inv(),
                z.val() == 0,
                forall|t2: int| 0 <= t2 < t ==> (#[trigger] buf@[t2]).val() == 0,
            decreases code_len - t,
        {
            buf.push(z);
            t = t + 1;
        }
        let one = F::one();
        buf.set(i, one);
        let ghost buf_before = buf@;
        proof {
            assert(all_inv(buf@));
            assert(vals_window(buf_before, 0, msg_len as int) =~= basis(
                msg_len as nat,
                i as int,
            ));
        }
        encode(&mut buf, precodes, postcodes);
        matrix1.push(buf);
        i = i + 1;
    }
    // the reverse map, one image per basis vector
    let mut matrix2: Vec<Vec<F>> = Vec::new();
    let mut j: usize = 0;
    while j < code_len
        invariant
            j <= code_len,
            1 <= msg_len <= code_len,
            p == F::modulus(),
            p > 1,
            rev_chain_wf(pre_t@, post_t@),
            pre_t@[0].rows + post_t@[0].rows + post_t@[0].cols == code_len,
            matrix2@.len() == j,
            forall|t: int|
                0 <= t < j ==> (#[trigger] matrix2@[t])@.len() == code_len && all_inv(
                    matrix2@[t]@,
                ) && vals_of(matrix2@[t]@) == rev_spec(
                    pre_t@,
                    post_t@,
                    basis(code_len as nat, t),
                    p,
                ),
        decreases code_len - j,
    {
        let mut buf: Vec<F> = Vec::new();
        let z = F::zero();
        let mut t: usize = 0;
        while t < code_len
            invariant
                t <= code_len,
                buf@.len() == t,
                all_inv(buf@),
                z.inv(),
                z.val() == 0,
                forall|t2: int| 0 <= t2 < t ==> (#[trigger] buf@[t2]).val() == 0,
            decreases code_len - t,
        {
            buf.push(z);
            t = t + 1;
        }
        let one = F::one();
        buf.set(j, one);
        let ghost buf_before = buf@;
        proof {
            assert(all_inv(buf@));
            assert(vals_of(buf_before) =~= basis(code_len as nat, j as int));
        }
        encode_rev(&mut buf, pre_t, post_t);
        matrix2.push(buf);
        j = j + 1;
    }
    // the two matrices must be transposes of one another
    let mut i2: usize = 0;
    while i2 < msg_len
        invariant
            i2 <= msg_len,
            1 <= msg_len <= code_len,
            p == F::modulus(),
            p > 1,
            matrix1@.len() == msg_len,
            matrix2@.len() == code_len,
            forall|t: int|
                0 <= t < msg_len ==> (#[trigger] matrix1@[t])@.len() == code_len && all_inv(
                    matrix1@[t]@,
                ) && vals_of(matrix1@[t]@) == codeword_spec(
                    precodes@,
                    postcodes@,
                    basis(msg_len as nat, t),
                    p,
                ),
            forall|t: int|
                0 <= t < code_len ==> (#[trigger] matrix2@[t])@.len() == code_len && all_inv(
                    matrix2@[t]@,
                ) && vals_of(matrix2@[t]@) == rev_spec(
                    pre_t@,
                    post_t@,
                    basis(code_len as nat, t),
                    p,
                ),
            forall|ia: int, ja: int|
                0 <= ia < i2 && 0 <= ja < code_len ==> codeword_spec(
                    precodes@,
                    postcodes@,
                    basis(msg_len as nat, ia),
                    p,
                )[ja] == rev_spec(pre_t@, post_t@, basis(code_len as nat, ja), p)[ia],
        decreases msg_len - i2,
    {
        let mut j2: usize = 0;
        while j2 < code_len
            invariant
                j2 <= code_len,
                i2 < msg_len,
                1 <= msg_len <= code_len,
                p == F::modulus(),
                p > 1,
                matrix1@.len() == msg_len,
                matrix2@.len() == code_len,
                forall|t: int|
                    0 <= t < msg_len ==> (#[trigger] matrix1@[t])@.len() == code_len && all_inv(
                        matrix1@[t]@,
                    ) && vals_of(matrix1@[t]@) == codeword_spec(
                        precodes@,
                        postcodes@,
                        basis(msg_len as nat, t),
                        p,
                    ),
                forall|t: int|
                    0 <= t < code_len ==> (#[trigger] matrix2@[t])@.len() == code_len && all_inv(
                        matrix2@[t]@,
                    ) && vals_of(matrix2@[t]@) == rev_spec(
                        pre_t@,
                        post_t@,
                        basis(code_len as nat, t),
                        p,
                    ),
                forall|ia: int, ja: int|
                    0 <= ia < i2 && 0 <= ja < code_len ==> codeword_spec(
                        precodes@,
                        postcodes@,
                        basis(msg_len as nat, ia),
                        p,
                    )[ja] == rev_spec(pre_t@, post_t@, basis(code_len as nat, ja), p)[ia],
                forall|ja: int|
                    0 <= ja < j2 ==> codeword_spec(
                        precodes@,
                        postcodes@,
                        basis(msg_len as nat, i2 as int),
                        p,
                    )[ja] == rev_spec(pre_t@, post_t@, basis(code_len as nat, ja), p)[i2 as int],
            decreases code_len - j2,
        {
            let a = matrix1[i2][j2];
            let b = matrix2[j2][i2];
            proof {
                assert(matrix1@[i2 as int]@[j2 as int].inv());
                assert(matrix2@[j2 as int]@[i2 as int].inv());
                assert(a.val() == vals_of(matrix1@[i2 as int]@)[j2 as int]);
                assert(b.val() == vals_of(matrix2@[j2 as int]@)[i2 as int]);
            }
            if !a.eq_elt(b) {
                proof {
                    assert(codeword_spec(
                        precodes@,
                        postcodes@,
                        basis(msg_len as nat, i2 as int),
                        p,
                    )[j2 as int] != rev_spec(
                        pre_t@,
                        post_t@,
                        basis(code_len as nat, j2 as int),
                        p,
                    )[i2 as int]);
                }
                return false;
            }
            j2 = j2 + 1;
        }
        i2 = i2 + 1;
    }
    true
}

} // verus!
