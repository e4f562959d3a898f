//! Generation of the recursive code.
//!
//! `generate` deterministically builds, from `(msg_len, seed, cs)`, the chain
//! of sparse precode and postcode matrices of the recursive linear-time code:
//! the working length is repeatedly shrunk by the factor `alpha` until it
//! reaches the base-case length, one precode and one postcode matrix per
//! level, sized so that the codeword of a length-`l` message has exactly
//! `target_len(l) = ceil(l * r)` entries.  Every random choice is drawn from
//! the seeded stream of [`CodeRng`], so the whole chain is a pure function of
//! `(msg_len, seed)` — prover and verifier regenerate the same code rather
//! than transmitting it.  `generate_rev` builds the structurally dual chain
//! (every matrix transposed) from a codeword length, used by the
//! reverse encoder.
//!
//! Each sparse row holds a fixed number of nonzero entries at distinct random
//! columns: the columns are drawn by selection sampling (one decision word
//! per column, so each row consumes exactly `2 * cols` stream words), which
//! yields the required distinct sorted columns without rejection loops.

use crate::codespec::CodeSpec;
use crate::field::Field;
use crate::rng::{chacha_word, CodeRng};
use crate::sparse::{stored_pairs, SparseMatrix};
use vstd::prelude::*;

verus! {

/// Number of nonzero entries per precode row, before capping by the width.
/// The parameter table derives row densities from entropy bounds over the
/// rationals `alpha` and `beta`; that derivation needs floating point, so
/// fixed densities in the range those bounds produce for the table's rows
/// stand in for it here.
pub const PRE_DENSITY: usize = 7;

/// Number of nonzero entries per postcode row, before capping by the width;
/// fixed for the same reason as [`PRE_DENSITY`].
pub const POST_DENSITY: usize = 10;

/// The working length of the next recursion level.
pub open spec fn next_len(l: nat, cs: CodeSpec) -> nat {
    l * (cs.alpha_num as nat) / (cs.alpha_den as nat)
}

/// The codeword length of a length-`l` message: `ceil(l * r_num / r_den)`.
pub open spec fn target_len(l: nat, cs: CodeSpec) -> nat {
    ((l * (cs.r_num as nat) + cs.r_den - 1) as nat) / (cs.r_den as nat)
}

pub proof fn lemma_next_len_lt(l: nat, cs: CodeSpec)
    requires
        cs.wf(),
        l >= 1,
    ensures
        next_len(l, cs) < l,
{
    assert(l * (cs.alpha_num as nat) / (cs.alpha_den as nat) < l) by (nonlinear_arith)
        requires
            0 < cs.alpha_num < cs.alpha_den,
            l >= 1,
    ;
}

/// The chain of working lengths `[l_0, l_1, ..., l_k]`, starting at `l` and
/// shrinking by `alpha` each level until the base-case length is reached.
pub open spec fn chain_lens(l: nat, cs: CodeSpec) -> Seq<nat>
    decreases l,
        when cs.wf()
        via chain_lens_dec
{
    if l <= cs.base_len {
        seq![l]
    } else {
        seq![l] + chain_lens(next_len(l, cs), cs)
    }
}

#[via_fn]
proof fn chain_lens_dec(l: nat, cs: CodeSpec) {
    if l > cs.base_len {
        lemma_next_len_lt(l, cs);
    }
}

/// Level `i` of the chain leaves room for at least one postcode row.
pub open spec fn level_ok(lens: Seq<nat>, cs: CodeSpec, i: int) -> bool {
    target_len(lens[i], cs) >= lens[i] + target_len(lens[i + 1], cs) + 1
}

/// The sizes are compatible: the recursion is entered at least once, the
/// innermost length is nonzero, and every level leaves room for at least one
/// postcode row.  `generate` succeeds exactly on these inputs.
pub open spec fn sizes_ok(msg_len: nat, cs: CodeSpec) -> bool {
    let lens = chain_lens(msg_len, cs);
    &&& cs.wf()
    &&& msg_len > cs.base_len
    &&& lens.last() >= 1
    &&& forall|i: int| 0 <= i < lens.len() - 1 ==> #[trigger] level_ok(lens, cs, i)
}

/// The entries of one sparse row, drawn by selection sampling: scanning
/// columns `c .. cols` with `chosen` entries already made of `d`, column `c`
/// is included iff its decision word falls below the number of entries still
/// owed, relative to the number of columns still available.  Each column
/// consumes two stream words (decision and value), whether included or not,
/// so the row occupies exactly the words `k0 .. k0 + 2 * cols`.
pub open spec fn row_entries_spec(
    seed: u64,
    k0: int,
    cols: nat,
    d: nat,
    c: nat,
    chosen: nat,
    p: nat,
) -> Seq<(nat, nat)>
    decreases cols - c,
{
    if c >= cols {
        Seq::empty()
    } else if (chacha_word(seed, k0 + 2 * c) as int) % ((cols - c) as int) < d - chosen {
        seq![(c, ((chacha_word(seed, k0 + 2 * c + 1) as nat) % ((p - 1) as nat) + 1) as nat)]
            + row_entries_spec(seed, k0, cols, d, (c + 1) as nat, (chosen + 1) as nat, p)
    } else {
        row_entries_spec(seed, k0, cols, d, (c + 1) as nat, chosen, p)
    }
}

/// The rows of one sparse matrix; row `i` is drawn from stream position
/// `k0 + 2 * cols * i`.
pub open spec fn matrix_rows_spec(
    seed: u64,
    k0: int,
    rows: nat,
    cols: nat,
    d: nat,
    p: nat,
) -> Seq<Seq<(nat, nat)>>
    decreases rows,
{
    if rows == 0 {
        Seq::empty()
    } else {
        matrix_rows_spec(seed, k0, (rows - 1) as nat, cols, d, p)
            + seq![row_entries_spec(seed, k0 + 2 * cols * (rows - 1), cols, d, 0, 0, p)]
    }
}

pub proof fn lemma_matrix_rows_spec(seed: u64, k0: int, rows: nat, cols: nat, d: nat, p: nat)
    ensures
        matrix_rows_spec(seed, k0, rows, cols, d, p).len() == rows,
        forall|i: int|
            0 <= i < rows ==> matrix_rows_spec(seed, k0, rows, cols, d, p)[i] == row_entries_spec(
                seed,
                k0 + 2 * cols * i,
                cols,
                d,
                0,
                0,
                p,
            ),
    decreases rows,
{
    if rows > 0 {
        lemma_matrix_rows_spec(seed, k0, (rows - 1) as nat, cols, d, p);
    }
}

/// Draw one sparse matrix from the stream: `rows` rows over `cols` columns,
/// each with at most `d` entries at distinct increasing columns, consuming
/// exactly `2 * cols` stream words per row.
#[verifier::rlimit(100)]
#[verifier::spinoff_prover]
fn gen_matrix<F: Field>(rng: &mut CodeRng, rows: usize, cols: usize, d: usize) -> (m: SparseMatrix<
    F,
>)
    requires
        1 <= cols,
        1 <= d <= cols,
    ensures
        m.wf(),
        m.rows == rows,
        m.cols == cols,
        m.rows_view() == matrix_rows_spec(
            old(rng).seed(),
            old(rng).count(),
            rows as nat,
            cols as nat,
            d as nat,
            F::modulus(),
        ),
        final (rng).seed() == old(rng).seed(),
        final (rng).count() == old(rng).count() + 2 * cols * rows,
{
    let ghost seed = rng.seed();
    let ghost k_start = rng.count();
    let ghost p = F::modulus();
    proof {
        F::lemma_modulus();
    }
    let mut indptr: Vec<usize> = Vec::new();
    let mut indices: Vec<usize> = Vec::new();
    let mut vals: Vec<F> = Vec::new();
    indptr.push(0);
    let mut i: usize = 0;
    while i < rows
        invariant
            i <= rows,
            1 <= cols,
            1 <= d <= cols,
            p == F::modulus(),
            p > 1,
            rng.seed() == seed,
            rng.count() == k_start + 2 * cols * i,
            indptr@.len() == i + 1,
            indptr@[0] == 0,
            indptr@[i as int] == indices@.len(),
            indices@.len() == vals@.len(),
            forall|t1: int, t2: int|
                #![trigger indptr@[t1], indptr@[t2]]
                0 <= t1 <= t2 <= i ==> indptr@[t1] <= indptr@[t2],
            forall|t: int| 0 <= t <= i ==> #[trigger] indptr@[t] <= indices@.len(),
            forall|k2: int| 0 <= k2 < indices@.len() ==> #[trigger] indices@[k2] < cols,
            forall|k2: int|
                0 <= k2 < vals@.len() ==> (#[trigger] vals@[k2]).inv() && vals@[k2].val() != 0,
            forall|t: int, ka: int, kb: int|
                #![trigger indptr@[t], indices@[ka], indices@[kb]]
                0 <= t < i && indptr@[t] <= ka < kb < indptr@[t + 1] ==> indices@[ka]
                    < indices@[kb],
            forall|t: int|
                0 <= t < i ==> stored_pairs(
                    indices@,
                    vals@,
                    indptr@[t] as int,
                    indptr@[t + 1] as int,
                ) == #[trigger] row_entries_spec(
                    seed,
                    k_start + 2 * cols * t,
                    cols as nat,
                    d as nat,
                    0,
                    0,
                    p,
                ),
        decreases rows - i,
    {
        let row_start = indices.len();
        let ghost k_row = k_start + 2 * cols * i;
        let ghost indptr0 = indptr@;
        let ghost ind0 = indices@;
        let ghost vals0 = vals@;
        let mut chosen: usize = 0;
        let mut c: usize = 0;
        while c < cols
            invariant
                i < rows,
                c <= cols,
                chosen <= d,
                1 <= cols,
                1 <= d <= cols,
                p == F::modulus(),
                p > 1,
                rng.seed() == seed,
                rng.count() == k_row + 2 * c,
                indptr@ == indptr0,
                row_start == ind0.len(),
                ind0.len() <= indices@.len(),
                indices@.len() == vals@.len(),
                indices@.subrange(0, row_start as int) == ind0,
                vals@.subrange(0, row_start as int) == vals0,
                chosen == indices@.len() - row_start,
                forall|k2: int| 0 <= k2 < indices@.len() ==> #[trigger] indices@[k2] < cols,
                forall|k2: int|
                    row_start <= k2 < indices@.len() ==> #[trigger] indices@[k2] < c,
                forall|k2: int|
                    0 <= k2 < vals@.len() ==> (#[trigger] vals@[k2]).inv() && vals@[k2].val()
                        != 0,
                forall|ka: int, kb: int|
                    #![trigger indices@[ka], indices@[kb]]
                    row_start <= ka < kb < indices@.len() ==> indices@[ka] < indices@[kb],
                row_entries_spec(seed, k_row, cols as nat, d as nat, 0, 0, p) == stored_pairs(
                    indices@,
                    vals@,
                    row_start as int,
                    indices@.len() as int,
                ) + row_entries_spec(
                    seed,
                    k_row,
                    cols as nat,
                    d as nat,
                    c as nat,
                    chosen as nat,
                    p,
                ),
            decreases cols - c,
        {
            let ghost ind_prev = indices@;
            let ghost vals_prev = vals@;
            let ghost chosen_prev = chosen as nat;
            let w_inc = rng.next_word();
            let w_val = rng.next_word();
            let rem = cols - c;
            let included = w_inc % (rem as u64) < (d - chosen) as u64;
            if included {
                indices.push(c);
                let v = F::nonzero_from_word(w_val);
                vals.push(v);
                chosen = chosen + 1;
            }
            c = c + 1;
            proof {
                let cn = (c - 1) as nat;
                let rest = row_entries_spec(seed, k_row, cols as nat, d as nat, cn, chosen_prev, p);
                assert(rest == if (chacha_word(seed, k_row + 2 * cn) as int) % ((cols - cn) as int)
                    < d - chosen_prev {
                    seq![
                        (
                            cn,
                            ((chacha_word(seed, k_row + 2 * cn + 1) as nat) % ((p - 1) as nat)
                                + 1) as nat,
                        ),
                    ] + row_entries_spec(
                        seed,
                        k_row,
                        cols as nat,
                        d as nat,
                        (cn + 1) as nat,
                        (chosen_prev + 1) as nat,
                        p,
                    )
                } else {
                    row_entries_spec(seed, k_row, cols as nat, d as nat, (cn + 1) as nat, chosen_prev, p)
                });
                if included {
                    let pair = (
                        cn,
                        ((chacha_word(seed, k_row + 2 * cn + 1) as nat) % ((p - 1) as nat)
                            + 1) as nat,
                    );
                    assert(stored_pairs(indices@, vals@, row_start as int, indices@.len() as int)
                        =~= stored_pairs(
                        ind_prev,
                        vals_prev,
                        row_start as int,
                        ind_prev.len() as int,
                    ) + seq![pair]);
                    assert((stored_pairs(ind_prev, vals_prev, row_start as int, ind_prev.len() as int)
                        + seq![pair]) + row_entries_spec(
                        seed,
                        k_row,
                        cols as nat,
                        d as nat,
                        c as nat,
                        chosen as nat,
                        p,
                    ) =~= stored_pairs(
                        ind_prev,
                        vals_prev,
                        row_start as int,
                        ind_prev.len() as int,
                    ) + (seq![pair] + row_entries_spec(
                        seed,
                        k_row,
                        cols as nat,
                        d as nat,
                        c as nat,
                        chosen as nat,
                        p,
                    )));
                    assert(indices@.subrange(0, row_start as int) =~= ind0);
                    assert(vals@.subrange(0, row_start as int) =~= vals0);
                }
            }
        }
        proof {
            assert(row_entries_spec(seed, k_row, cols as nat, d as nat, cols as nat, chosen as nat, p)
                == Seq::<(nat, nat)>::empty());
            assert(stored_pairs(indices@, vals@, row_start as int, indices@.len() as int)
                + Seq::<(nat, nat)>::empty() =~= stored_pairs(
                indices@,
                vals@,
                row_start as int,
                indices@.len() as int,
            ));
        }
        let row_end = indices.len();
        indptr.push(row_end);
        i = i + 1;
        proof {
            assert(2 * cols * (i - 1) + 2 * cols == 2 * cols * i) by (nonlinear_arith);
            let inds = indices@;
            let vs = vals@;
            assert forall|t: int, ka: int, kb: int|
                #![trigger indptr@[t], inds[ka], inds[kb]]
                0 <= t < i && indptr@[t] <= ka < kb < indptr@[t + 1] implies inds[ka]
                < inds[kb] by {
                if t < i - 1 {
                    assert(indptr@[t] == indptr0[t]);
                    assert(indptr@[t + 1] == indptr0[t + 1]);
                    assert(indptr0[t + 1] <= row_start);
                    assert(ind0[ka] == indices@.subrange(0, row_start as int)[ka]);
                    assert(ind0[kb] == indices@.subrange(0, row_start as int)[kb]);
                } else {
                    assert(indptr@[t] == row_start);
                    assert(indptr@[t + 1] == row_end);
                }
            }
            assert forall|t: int| 0 <= t < i implies stored_pairs(
                inds,
                vs,
                indptr@[t] as int,
                indptr@[t + 1] as int,
            ) == #[trigger] row_entries_spec(
                seed,
                k_start + 2 * cols * t,
                cols as nat,
                d as nat,
                0,
                0,
                p,
            ) by {
                if t < i - 1 {
                    assert(indptr@[t] == indptr0[t]);
                    assert(indptr@[t + 1] == indptr0[t + 1]);
                    assert(stored_pairs(inds, vs, indptr@[t] as int, indptr@[t + 1] as int)
                        =~= stored_pairs(ind0, vals0, indptr0[t] as int, indptr0[t + 1] as int));
                } else {
                    assert(indptr@[t] == row_start);
                    assert(indptr@[t + 1] == row_end);
                }
            }
        }
    }
    let m = SparseMatrix { rows, cols, indptr, indices, vals };
    proof {
        reveal(SparseMatrix::wf);
        lemma_matrix_rows_spec(seed, k_start, rows as nat, cols as nat, d as nat, p);
        assert forall|t: int| 0 <= t < rows implies m.row_entries(t) == matrix_rows_spec(
            seed,
            k_start,
            rows as nat,
            cols as nat,
            d as nat,
            p,
        )[t] by {
            assert(m.row_entries(t) =~= stored_pairs(
                m.indices@,
                m.vals@,
                m.indptr@[t] as int,
                m.indptr@[t + 1] as int,
            ));
        }
        assert(m.rows_view() =~= matrix_rows_spec(
            seed,
            k_start,
            rows as nat,
            cols as nat,
            d as nat,
            p,
        ));
    }
    m
}

/// Stream position at which precode `i` begins: precode `j` has `lens[j]`
/// columns and `lens[j + 1]` rows, hence occupies `2 * lens[j] * lens[j+1]`
/// words.
pub open spec fn pre_off(lens: Seq<nat>, i: int) -> int
    decreases i,
{
    if i <= 0 {
        0
    } else {
        pre_off(lens, i - 1) + 2 * lens[i - 1] * lens[i]
    }
}

/// Width of postcode `j`: the length of the sub-codeword below level `j`.
pub open spec fn post_cols(lens: Seq<nat>, cs: CodeSpec, j: int) -> nat {
    target_len(lens[j + 1], cs)
}

/// Height of postcode `j`: what remains of the level-`j` codeword after its
/// input and the sub-codeword below it.
pub open spec fn post_rows(lens: Seq<nat>, cs: CodeSpec, j: int) -> nat {
    (target_len(lens[j], cs) - lens[j] - target_len(lens[j + 1], cs)) as nat
}

/// Stream position at which postcode `j` begins (the postcodes follow all
/// the precodes).
pub open spec fn post_off(lens: Seq<nat>, cs: CodeSpec, j: int) -> int
    decreases j,
{
    if j <= 0 {
        pre_off(lens, lens.len() - 1)
    } else {
        post_off(lens, cs, j - 1) + 2 * post_cols(lens, cs, j - 1) * post_rows(lens, cs, j - 1)
    }
}

/// Entries per row of precode `i`.
pub open spec fn pre_density(lens: Seq<nat>, i: int) -> nat {
    if lens[i] < PRE_DENSITY as nat {
        lens[i]
    } else {
        PRE_DENSITY as nat
    }
}

/// Entries per row of postcode `j`.
pub open spec fn post_density(lens: Seq<nat>, cs: CodeSpec, j: int) -> nat {
    if post_cols(lens, cs, j) < POST_DENSITY as nat {
        post_cols(lens, cs, j)
    } else {
        POST_DENSITY as nat
    }
}

/// The chain `(pre, post)` is exactly what `generate` derives from
/// `(msg_len, seed, cs)`: one precode and one postcode per level, with the
/// prescribed shapes, every matrix well-formed and its rows drawn from the
/// seeded stream at the prescribed position.  Two chains satisfying this
/// predicate for the same arguments hold identical entries.
pub open spec fn generated_chain<F: Field>(
    pre: Seq<SparseMatrix<F>>,
    post: Seq<SparseMatrix<F>>,
    msg_len: nat,
    seed: u64,
    cs: CodeSpec,
) -> bool {
    let lens = chain_lens(msg_len, cs);
    let k = lens.len() - 1;
    let p = F::modulus();
    &&& pre.len() == k
    &&& post.len() == k
    &&& forall|i: int|
        0 <= i < k ==> {
            &&& (#[trigger] pre[i]).wf()
            &&& pre[i].cols == lens[i]
            &&& pre[i].rows == lens[i + 1]
            &&& pre[i].rows_view() == matrix_rows_spec(
                seed,
                pre_off(lens, i),
                lens[i + 1],
                lens[i],
                pre_density(lens, i),
                p,
            )
        }
    &&& forall|j: int|
        0 <= j < k ==> {
            &&& (#[trigger] post[j]).wf()
            &&& post[j].cols == post_cols(lens, cs, j)
            &&& post[j].rows == post_rows(lens, cs, j)
            &&& post[j].rows_view() == matrix_rows_spec(
                seed,
                post_off(lens, cs, j),
                post_rows(lens, cs, j),
                post_cols(lens, cs, j),
                post_density(lens, cs, j),
                p,
            )
        }
}

/// Determinism of code generation: any two chains generated from the same
/// `(msg_len, seed, cs)` have the same number of levels, matrices of the
/// same shapes, and bit-identical contents, entry for entry.
pub proof fn lemma_generate_deterministic<F: Field>(
    pre1: Seq<SparseMatrix<F>>,
    post1: Seq<SparseMatrix<F>>,
    pre2: Seq<SparseMatrix<F>>,
    post2: Seq<SparseMatrix<F>>,
    msg_len: nat,
    seed: u64,
    cs: CodeSpec,
)
    requires
        generated_chain(pre1, post1, msg_len, seed, cs),
        generated_chain(pre2, post2, msg_len, seed, cs),
    ensures
        pre1.len() == pre2.len(),
        post1.len() == post2.len(),
        forall|i: int|
            0 <= i < pre1.len() ==> (#[trigger] pre1[i]).rows == pre2[i].rows && pre1[i].cols
                == pre2[i].cols && pre1[i].rows_view() == pre2[i].rows_view(),
        forall|j: int|
            0 <= j < post1.len() ==> (#[trigger] post1[j]).rows == post2[j].rows && post1[j].cols
                == post2[j].cols && post1[j].rows_view() == post2[j].rows_view(),
        forall|i: int|
            0 <= i < pre1.len() ==> (#[trigger] pre1[i]).indptr@ == pre2[i].indptr@
                && pre1[i].indices@ == pre2[i].indices@ && pre1[i].vals@ == pre2[i].vals@,
        forall|j: int|
            0 <= j < post1.len() ==> (#[trigger] post1[j]).indptr@ == post2[j].indptr@
                && post1[j].indices@ == post2[j].indices@ && post1[j].vals@ == post2[j].vals@,
{
    assert forall|i: int|
        0 <= i < pre1.len() implies (#[trigger] pre1[i]).indptr@ == pre2[i].indptr@
        && pre1[i].indices@ == pre2[i].indices@ && pre1[i].vals@ == pre2[i].vals@ by {
        crate::sparse::lemma_matrix_content_deterministic(pre1[i], pre2[i]);
    }
    assert forall|j: int|
        0 <= j < post1.len() implies (#[trigger] post1[j]).indptr@ == post2[j].indptr@
        && post1[j].indices@ == post2[j].indices@ && post1[j].vals@ == post2[j].vals@ by {
        crate::sparse::lemma_matrix_content_deterministic(post1[j], post2[j]);
    }
}

/// Structural facts about the chain of working lengths.
pub proof fn lemma_chain_lens(l: nat, cs: CodeSpec)
    requires
        cs.wf(),
    ensures
        chain_lens(l, cs).len() >= 1,
        chain_lens(l, cs)[0] == l,
        chain_lens(l, cs).last() <= cs.base_len,
        forall|i: int|
            0 <= i < chain_lens(l, cs).len() - 1 ==> #[trigger] chain_lens(l, cs)[i]
                > cs.base_len,
        forall|i: int|
            0 <= i < chain_lens(l, cs).len() - 1 ==> #[trigger] chain_lens(l, cs)[i + 1]
                == next_len(chain_lens(l, cs)[i], cs),
        forall|i: int| 0 <= i < chain_lens(l, cs).len() ==> #[trigger] chain_lens(l, cs)[i] <= l,
    decreases l,
{
    if l > cs.base_len {
        lemma_next_len_lt(l, cs);
        lemma_chain_lens(next_len(l, cs), cs);
        let tail = chain_lens(next_len(l, cs), cs);
        let whole = chain_lens(l, cs);
        assert(whole == seq![l] + tail);
        assert forall|i: int| 0 <= i < whole.len() - 1 implies #[trigger] whole[i]
            > cs.base_len by {
            if i > 0 {
                assert(whole[i] == tail[i - 1]);
            }
        }
        assert forall|i: int| 0 <= i < whole.len() - 1 implies #[trigger] whole[i + 1] == next_len(
            whole[i],
            cs,
        ) by {
            if i == 0 {
                assert(whole[0] == l);
                assert(whole[1] == tail[0]);
                assert(tail[0] == next_len(l, cs));
            } else {
                assert(whole[i] == tail[i - 1]);
                assert(whole[i + 1] == tail[i]);
                assert(tail[(i - 1) + 1] == next_len(tail[i - 1], cs));
            }
        }
        assert forall|i: int| 0 <= i < whole.len() implies #[trigger] whole[i] <= l by {
            if i > 0 {
                assert(whole[i] == tail[i - 1]);
            }
        }
    }
}

/// The working lengths of every level, as machine integers.
fn compute_lens(msg_len: usize, cs: CodeSpec) -> (lens: Vec<usize>)
    requires
        cs.wf(),
        1 <= msg_len < 0x10000,
    ensures
        lens@.map_values(|v: usize| v as nat) == chain_lens(msg_len as nat, cs),
        lens@.len() >= 1,
        forall|t: int| 0 <= t < lens@.len() ==> #[trigger] lens@[t] <= msg_len,
{
    let ghost lens_spec = chain_lens(msg_len as nat, cs);
    let mut lens: Vec<usize> = Vec::new();
    let mut cur: usize = msg_len;
    lens.push(cur);
    proof {
        assert(lens@.map_values(|v: usize| v as nat).drop_last() + chain_lens(cur as nat, cs)
            =~= chain_lens(msg_len as nat, cs));
    }
    while cur > cs.base_len
        invariant
            cs.wf(),
            1 <= msg_len < 0x10000,
            cur <= msg_len,
            lens_spec == chain_lens(msg_len as nat, cs),
            lens@.len() >= 1,
            lens@.last() == cur,
            forall|t: int| 0 <= t < lens@.len() ==> #[trigger] lens@[t] <= msg_len,
            lens_spec == lens@.map_values(|v: usize| v as nat).drop_last() + chain_lens(
                cur as nat,
                cs,
            ),
        decreases cur,
    {
        proof {
            lemma_next_len_lt(cur as nat, cs);
            assert(cur * cs.alpha_num <= 0xffff * 0xffff) by (nonlinear_arith)
                requires
                    cur < 0x10000,
                    cs.alpha_num < 0x10000,
            ;
        }
        let nxt = cur * cs.alpha_num / cs.alpha_den;
        let ghost lm = lens@.map_values(|v: usize| v as nat);
        lens.push(nxt);
        cur = nxt;
        proof {
            let lm2 = lens@.map_values(|v: usize| v as nat);
            assert(lm2.drop_last() =~= lm);
            assert(lm.drop_last() + (seq![lm.last()] + chain_lens(cur as nat, cs)) =~= (
            lm.drop_last() + seq![lm.last()]) + chain_lens(cur as nat, cs));
            assert(lm.drop_last() + seq![lm.last()] =~= lm);
        }
    }
    proof {
        let lm = lens@.map_values(|v: usize| v as nat);
        assert(lm.drop_last() + seq![lm.last()] =~= lm);
        assert(chain_lens(cur as nat, cs) == seq![cur as nat]);
        assert(lm == lens_spec);
    }
    lens
}

/// The codeword length of every level, as machine integers.
fn compute_targets(msg_len: usize, lens: &Vec<usize>, cs: CodeSpec) -> (ts: Vec<usize>)
    requires
        cs.wf(),
        1 <= msg_len < 0x10000,
        lens@.map_values(|v: usize| v as nat) == chain_lens(msg_len as nat, cs),
        forall|t: int| 0 <= t < lens@.len() ==> #[trigger] lens@[t] <= msg_len,
    ensures
        ts@.len() == lens@.len(),
        forall|t2: int|
            0 <= t2 < ts@.len() ==> #[trigger] ts@[t2] == target_len(
                chain_lens(msg_len as nat, cs)[t2],
                cs,
            ),
        forall|t2: int| 0 <= t2 < ts@.len() ==> #[trigger] ts@[t2] < 0x100000000,
{
    let ghost lens_spec = chain_lens(msg_len as nat, cs);
    let n = lens.len();
    let mut ts: Vec<usize> = Vec::new();
    let mut t: usize = 0;
    while t < n
        invariant
            cs.wf(),
            1 <= msg_len < 0x10000,
            lens_spec == chain_lens(msg_len as nat, cs),
            lens@.map_values(|v: usize| v as nat) == lens_spec,
            n == lens@.len(),
            forall|t2: int| 0 <= t2 < lens@.len() ==> #[trigger] lens@[t2] <= msg_len,
            t <= n,
            ts@.len() == t,
            forall|t2: int| 0 <= t2 < t ==> #[trigger] ts@[t2] == target_len(lens_spec[t2], cs),
            forall|t2: int| 0 <= t2 < t ==> #[trigger] ts@[t2] < 0x100000000,
        decreases n - t,
    {
        proof {
            assert(lens@[t as int] * cs.r_num <= 0xffff * 0x10000) by (nonlinear_arith)
                requires
                    lens@[t as int] < 0x10000,
                    cs.r_num <= 0x10000,
            ;
            assert(lens_spec[t as int] == lens@[t as int] as nat);
        }
        let v = (lens[t] * cs.r_num + cs.r_den - 1) / cs.r_den;
        ts.push(v);
        t = t + 1;
    }
    ts
}

/// Whether every level leaves room for at least one postcode row.
fn check_sizes(msg_len: usize, lens: &Vec<usize>, ts: &Vec<usize>, cs: CodeSpec) -> (ok: bool)
    requires
        cs.wf(),
        lens@.len() >= 1,
        1 <= msg_len < 0x10000,
        lens@.map_values(|v: usize| v as nat) == chain_lens(msg_len as nat, cs),
        forall|t: int| 0 <= t < lens@.len() ==> #[trigger] lens@[t] <= msg_len,
        ts@.len() == lens@.len(),
        forall|t2: int|
            0 <= t2 < ts@.len() ==> #[trigger] ts@[t2] == target_len(
                chain_lens(msg_len as nat, cs)[t2],
                cs,
            ),
        forall|t2: int| 0 <= t2 < ts@.len() ==> #[trigger] ts@[t2] < 0x100000000,
    ensures
        ok == forall|i: int|
            0 <= i < chain_lens(msg_len as nat, cs).len() - 1 ==> #[trigger] level_ok(
                chain_lens(msg_len as nat, cs),
                cs,
                i,
            ),
{
    let ghost lens_spec = chain_lens(msg_len as nat, cs);
    let k = lens.len() - 1;
    let mut i: usize = 0;
    while i < k
        invariant
            cs.wf(),
            1 <= msg_len < 0x10000,
            lens_spec == chain_lens(msg_len as nat, cs),
            lens@.map_values(|v: usize| v as nat) == lens_spec,
            k == lens@.len() - 1,
            ts@.len() == lens@.len(),
            forall|t2: int| 0 <= t2 < lens@.len() ==> #[trigger] lens@[t2] <= msg_len,
            forall|t2: int| 0 <= t2 < ts@.len() ==> #[trigger] ts@[t2] == target_len(lens_spec[t2], cs),
            forall|t2: int| 0 <= t2 < ts@.len() ==> #[trigger] ts@[t2] < 0x100000000,
            i <= k,
            forall|t2: int| 0 <= t2 < i ==> #[trigger] level_ok(lens_spec, cs, t2),
        decreases k - i,
    {
        let need = lens[i] as u64 + ts[i + 1] as u64 + 1;
        if (ts[i] as u64) < need {
            proof {
                assert(!level_ok(lens_spec, cs, i as int));
            }
            return false;
        }
        proof {
            assert(level_ok(lens_spec, cs, i as int));
        }
        i = i + 1;
    }
    true
}

/// Draw the precode matrices, levels outermost first.
#[verifier::rlimit(100)]
#[verifier::spinoff_prover]
fn gen_precodes<F: Field>(
    rng: &mut CodeRng,
    lens: &Vec<usize>,
    Ghost(lens_spec): Ghost<Seq<nat>>,
) -> (pre: Vec<SparseMatrix<F>>)
    requires
        lens@.map_values(|v: usize| v as nat) == lens_spec,
        lens@.len() >= 2,
        forall|t: int| 0 <= t < lens@.len() ==> #[trigger] lens_spec[t] >= 1,
        old(rng).count() == 0,
    ensures
        pre@.len() == lens_spec.len() - 1,
        final (rng).seed() == old(rng).seed(),
        final (rng).count() == pre_off(lens_spec, lens_spec.len() - 1),
        forall|t2: int|
            0 <= t2 < pre@.len() ==> {
                &&& (#[trigger] pre@[t2]).wf()
                &&& pre@[t2].cols == lens_spec[t2]
                &&& pre@[t2].rows == lens_spec[t2 + 1]
                &&& pre@[t2].rows_view() == matrix_rows_spec(
                    old(rng).seed(),
                    pre_off(lens_spec, t2),
                    lens_spec[t2 + 1],
                    lens_spec[t2],
                    pre_density(lens_spec, t2),
                    F::modulus(),
                )
            },
{
    let ghost seed = rng.seed();
    let ghost p = F::modulus();
    let k = lens.len() - 1;
    let mut pre: Vec<SparseMatrix<F>> = Vec::new();
    let mut i: usize = 0;
    while i < k
        invariant
            lens@.map_values(|v: usize| v as nat) == lens_spec,
            k == lens@.len() - 1,
            lens@.len() >= 2,
            forall|t: int| 0 <= t < lens@.len() ==> #[trigger] lens_spec[t] >= 1,
            p == F::modulus(),
            i <= k,
            rng.seed() == seed,
            rng.count() == pre_off(lens_spec, i as int),
            pre@.len() == i,
            forall|t2: int|
                0 <= t2 < i ==> {
                    &&& (#[trigger] pre@[t2]).wf()
                    &&& pre@[t2].cols == lens_spec[t2]
                    &&& pre@[t2].rows == lens_spec[t2 + 1]
                    &&& pre@[t2].rows_view() == matrix_rows_spec(
                        seed,
                        pre_off(lens_spec, t2),
                        lens_spec[t2 + 1],
                        lens_spec[t2],
                        pre_density(lens_spec, t2),
                        p,
                    )
                },
        decreases k - i,
    {
        let cols = lens[i];
        let rows_m = lens[i + 1];
        let dd = if cols < PRE_DENSITY {
            cols
        } else {
            PRE_DENSITY
        };
        proof {
            assert(lens_spec[i as int] == lens@[i as int] as nat);
            assert(lens_spec[i as int + 1] == lens@[i as int + 1] as nat);
        }
        let m = gen_matrix::<F>(rng, rows_m, cols, dd);
        pre.push(m);
        i = i + 1;
        proof {
            assert(dd as nat == pre_density(lens_spec, i - 1));
            assert(pre_off(lens_spec, i as int) == pre_off(lens_spec, i - 1) + 2 * lens_spec[i - 1]
                * lens_spec[i as int]);
        }
    }
    pre
}

/// Draw the postcode matrices, levels outermost first.
#[verifier::rlimit(100)]
#[verifier::spinoff_prover]
fn gen_postcodes<F: Field>(
    rng: &mut CodeRng,
    lens: &Vec<usize>,
    ts: &Vec<usize>,
    cs: CodeSpec,
    Ghost(lens_spec): Ghost<Seq<nat>>,
) -> (post: Vec<SparseMatrix<F>>)
    requires
        cs.wf(),
        lens@.map_values(|v: usize| v as nat) == lens_spec,
        lens@.len() >= 2,
        ts@.len() == lens@.len(),
        forall|t: int| 0 <= t < lens@.len() ==> #[trigger] lens_spec[t] >= 1,
        forall|t2: int|
            0 <= t2 < ts@.len() ==> #[trigger] ts@[t2] == target_len(lens_spec[t2], cs),
        forall|i: int| 0 <= i < lens_spec.len() - 1 ==> #[trigger] level_ok(lens_spec, cs, i),
        old(rng).count() == pre_off(lens_spec, lens_spec.len() - 1),
    ensures
        post@.len() == lens_spec.len() - 1,
        final (rng).seed() == old(rng).seed(),
        forall|t2: int|
            0 <= t2 < post@.len() ==> {
                &&& (#[trigger] post@[t2]).wf()
                &&& post@[t2].cols == post_cols(lens_spec, cs, t2)
                &&& post@[t2].rows == post_rows(lens_spec, cs, t2)
                &&& post@[t2].rows_view() == matrix_rows_spec(
                    old(rng).seed(),
                    post_off(lens_spec, cs, t2),
                    post_rows(lens_spec, cs, t2),
                    post_cols(lens_spec, cs, t2),
                    post_density(lens_spec, cs, t2),
                    F::modulus(),
                )
            },
{
    let ghost seed = rng.seed();
    let ghost p = F::modulus();
    let k = lens.len() - 1;
    let mut post: Vec<SparseMatrix<F>> = Vec::new();
    let mut j: usize = 0;
    while j < k
        invariant
            cs.wf(),
            lens@.map_values(|v: usize| v as nat) == lens_spec,
            k == lens@.len() - 1,
            lens@.len() >= 2,
            ts@.len() == lens@.len(),
            forall|t: int| 0 <= t < lens@.len() ==> #[trigger] lens_spec[t] >= 1,
            forall|t2: int|
                0 <= t2 < ts@.len() ==> #[trigger] ts@[t2] == target_len(lens_spec[t2], cs),
            forall|i: int| 0 <= i < lens_spec.len() - 1 ==> #[trigger] level_ok(lens_spec, cs, i),
            p == F::modulus(),
            j <= k,
            rng.seed() == seed,
            rng.count() == post_off(lens_spec, cs, j as int),
            post@.len() == j,
            forall|t2: int|
                0 <= t2 < j ==> {
                    &&& (#[trigger] post@[t2]).wf()
                    &&& post@[t2].cols == post_cols(lens_spec, cs, t2)
                    &&& post@[t2].rows == post_rows(lens_spec, cs, t2)
                    &&& post@[t2].rows_view() == matrix_rows_spec(
                        seed,
                        post_off(lens_spec, cs, t2),
                        post_rows(lens_spec, cs, t2),
                        post_cols(lens_spec, cs, t2),
                        post_density(lens_spec, cs, t2),
                        p,
                    )
                },
        decreases k - j,
    {
        proof {
            assert(lens_spec[j as int] == lens@[j as int] as nat);
            assert(lens_spec[j as int + 1] == lens@[j as int + 1] as nat);
            lemma_target_ge(lens_spec[j as int + 1], cs);
            assert(level_ok(lens_spec, cs, j as int));
        }
        let cols_p = ts[j + 1];
        let rows_p = ts[j] - lens[j] - ts[j + 1];
        let dd = if cols_p < POST_DENSITY {
            cols_p
        } else {
            POST_DENSITY
        };
        let m = gen_matrix::<F>(rng, rows_p, cols_p, dd);
        post.push(m);
        j = j + 1;
        proof {
            assert(dd as nat == post_density(lens_spec, cs, j - 1));
            assert(cols_p as nat == post_cols(lens_spec, cs, j - 1));
            assert(rows_p as nat == post_rows(lens_spec, cs, j - 1));
            assert(post_off(lens_spec, cs, j as int) == post_off(lens_spec, cs, j - 1) + 2
                * post_cols(lens_spec, cs, j - 1) * post_rows(lens_spec, cs, j - 1));
        }
    }
    post
}

/// Build the code chain for messages of length `msg_len` from `seed`.
/// Returns `None` exactly when the sizes are incompatible (the
/// configuration error of the scheme).
#[verifier::rlimit(100)]
#[verifier::spinoff_prover]
pub fn generate<F: Field>(msg_len: usize, seed: u64, cs: CodeSpec) -> (r: Option<
    (Vec<SparseMatrix<F>>, Vec<SparseMatrix<F>>),
>)
    requires
        cs.wf(),
        1 <= msg_len < 0x10000,
    ensures
        r is Some <==> sizes_ok(msg_len as nat, cs),
        r matches Some(ch) ==> generated_chain(ch.0@, ch.1@, msg_len as nat, seed, cs),
{
    let ghost lens_spec = chain_lens(msg_len as nat, cs);
    proof {
        F::lemma_modulus();
        lemma_chain_lens(msg_len as nat, cs);
    }
    if msg_len <= cs.base_len {
        return None;
    }
    let lens = compute_lens(msg_len, cs);
    let k = lens.len() - 1;
    proof {
        assert(lens@.len() == lens_spec.len());
        assert(lens_spec.len() >= 2);
        assert(lens@[k as int] as nat == lens_spec[k as int]);
    }
    if lens[k] == 0 {
        proof {
            assert(lens_spec.last() == 0);
        }
        return None;
    }
    let ts = compute_targets(msg_len, &lens, cs);
    if !check_sizes(msg_len, &lens, &ts, cs) {
        return None;
    }
    proof {
        assert(lens_spec.last() >= 1);
        assert(sizes_ok(msg_len as nat, cs));
        assert forall|t: int| 0 <= t < lens@.len() implies #[trigger] lens_spec[t] >= 1 by {
            if t < lens@.len() - 1 {
                assert(lens_spec[t] > cs.base_len);
            } else {
                assert(lens_spec[t] == lens_spec.last());
            }
        }
    }
    let mut rng = CodeRng::new(seed);
    let pre = gen_precodes::<F>(&mut rng, &lens, Ghost(lens_spec));
    let post = gen_postcodes::<F>(&mut rng, &lens, &ts, cs, Ghost(lens_spec));
    Some((pre, post))
}


/// Codeword lengths of bounded messages fit comfortably in a machine word.
pub proof fn lemma_target_fits(l: nat, cs: CodeSpec)
    requires
        cs.wf(),
        l < 0x10000,
    ensures
        target_len(l, cs) < 0x100000000,
{
    assert(l * (cs.r_num as nat) + cs.r_den - 1 < 0x100000000) by (nonlinear_arith)
        requires
            l < 0x10000,
            0 < cs.r_num <= 0x10000,
            0 < cs.r_den <= 0x10000,
    ;
    assert(target_len(l, cs) < 0x100000000) by (nonlinear_arith)
        requires
            l * (cs.r_num as nat) + cs.r_den - 1 < 0x100000000,
            0 < cs.r_den,
            target_len(l, cs) == ((l * (cs.r_num as nat) + cs.r_den - 1) as nat) / (
            cs.r_den as nat),
    ;
}

/// The codeword is never shorter than the message: `target_len(l) >= l`.
pub proof fn lemma_target_ge(l: nat, cs: CodeSpec)
    requires
        cs.wf(),
    ensures
        target_len(l, cs) >= l,
{
    assert(((l * (cs.r_num as nat) + cs.r_den - 1) as nat) / (cs.r_den as nat) >= l)
        by (nonlinear_arith)
        requires
            0 < cs.r_den < cs.r_num,
    ;
}


/// The reverse chain `(pre_t, post_t)` is exactly what `generate_rev`
/// derives from `(code_len, seed, cs)`: the transposes of the seeded
/// forward chain for the recovered message length, with the shapes of the
/// dual layout.  Two chains satisfying this predicate for the same
/// arguments hold identical rows.
pub open spec fn rev_generated_chain<F: Field>(
    pre_t: Seq<SparseMatrix<F>>,
    post_t: Seq<SparseMatrix<F>>,
    code_len: nat,
    seed: u64,
    cs: CodeSpec,
) -> bool {
    let ml = code_len * (cs.r_den as nat) / (cs.r_num as nat);
    let lens = chain_lens(ml, cs);
    let p = F::modulus();
    &&& pre_t.len() == post_t.len()
    &&& pre_t.len() == lens.len() - 1
    &&& pre_t.len() >= 1
    &&& crate::encode::rev_chain_wf(pre_t, post_t)
    &&& pre_t[0].rows + post_t[0].rows + post_t[0].cols == code_len
    &&& forall|i: int| 0 <= i < pre_t.len() ==> (#[trigger] pre_t[i]).wf()
    &&& forall|i: int| 0 <= i < post_t.len() ==> (#[trigger] post_t[i]).wf()
    &&& forall|i: int|
        0 <= i < pre_t.len() ==> (#[trigger] pre_t[i]).rows == lens[i] && pre_t[i].cols == lens[i
            + 1] && pre_t[i].rows_view() == crate::sparse::transpose_rows(
            matrix_rows_spec(
                seed,
                pre_off(lens, i),
                lens[i + 1],
                lens[i],
                pre_density(lens, i),
                p,
            ),
            lens[i],
        )
    &&& forall|j: int|
        0 <= j < post_t.len() ==> (#[trigger] post_t[j]).rows == post_cols(lens, cs, j)
            && post_t[j].cols == post_rows(lens, cs, j) && post_t[j].rows_view()
            == crate::sparse::transpose_rows(
            matrix_rows_spec(
                seed,
                post_off(lens, cs, j),
                post_rows(lens, cs, j),
                post_cols(lens, cs, j),
                post_density(lens, cs, j),
                p,
            ),
            post_cols(lens, cs, j),
        )
}

/// Determinism of the reverse generator: any two chains generated from the
/// same `(code_len, seed, cs)` have the same number of levels, matrices of
/// the same shapes, and identical rows.
pub proof fn lemma_generate_rev_deterministic<F: Field>(
    pre1: Seq<SparseMatrix<F>>,
    post1: Seq<SparseMatrix<F>>,
    pre2: Seq<SparseMatrix<F>>,
    post2: Seq<SparseMatrix<F>>,
    code_len: nat,
    seed: u64,
    cs: CodeSpec,
)
    requires
        rev_generated_chain(pre1, post1, code_len, seed, cs),
        rev_generated_chain(pre2, post2, code_len, seed, cs),
    ensures
        pre1.len() == pre2.len(),
        post1.len() == post2.len(),
        forall|i: int|
            0 <= i < pre1.len() ==> (#[trigger] pre1[i]).rows == pre2[i].rows && pre1[i].cols
                == pre2[i].cols && pre1[i].rows_view() == pre2[i].rows_view(),
        forall|j: int|
            0 <= j < post1.len() ==> (#[trigger] post1[j]).rows == post2[j].rows && post1[j].cols
                == post2[j].cols && post1[j].rows_view() == post2[j].rows_view(),
{
}

/// Build the reverse (transposed) chain from a codeword length: recover the
/// message length whose codeword is `code_len` long, regenerate the forward
/// chain from the same seed, and transpose every matrix.  Succeeds exactly
/// when a compatible message length exists; every returned matrix is pinned
/// as the transpose of the corresponding seeded forward matrix, so the
/// reverse chain is a pure function of `(code_len, seed, cs)`.
#[verifier::rlimit(100)]
#[verifier::spinoff_prover]
pub fn generate_rev<F: Field>(code_len: usize, seed: u64, cs: CodeSpec) -> (r: Option<
    (Vec<SparseMatrix<F>>, Vec<SparseMatrix<F>>),
>)
    requires
        cs.wf(),
        1 <= code_len,
        code_len * cs.r_den <= usize::MAX,
    ensures
        r is Some <==> ({
            let ml = (code_len as nat) * (cs.r_den as nat) / (cs.r_num as nat);
            &&& 1 <= ml < 0x10000
            &&& target_len(ml, cs) == code_len
            &&& sizes_ok(ml, cs)
        }),
        r matches Some(ch) ==> rev_generated_chain(ch.0@, ch.1@, code_len as nat, seed, cs),
{
    let ml = code_len * cs.r_den / cs.r_num;
    if ml == 0 || ml >= 0x10000 {
        return None;
    }
    proof {
        assert(ml * cs.r_num <= 0xffff * 0x10000) by (nonlinear_arith)
            requires
                ml < 0x10000,
                cs.r_num <= 0x10000,
        ;
    }
    let back = (ml * cs.r_num + cs.r_den - 1) / cs.r_den;
    if back != code_len {
        return None;
    }
    match generate::<F>(ml, seed, cs) {
        Some((pre, post)) => {
            proof {
                lemma_chain_lens(ml as nat, cs);
            }
            let k = pre.len();
            let ghost lens_spec = chain_lens(ml as nat, cs);
            let ghost p = F::modulus();
            let mut pre_t: Vec<SparseMatrix<F>> = Vec::new();
            let mut i: usize = 0;
            while i < k
                invariant
                    i <= k,
                    k == pre@.len(),
                    generated_chain(pre@, post@, ml as nat, seed, cs),
                    lens_spec == chain_lens(ml as nat, cs),
                    p == F::modulus(),
                    pre_t@.len() == i,
                    forall|t: int|
                        0 <= t < i ==> (#[trigger] pre_t@[t]).wf() && pre_t@[t].rows
                            == lens_spec[t] && pre_t@[t].cols == lens_spec[t + 1]
                            && pre_t@[t].rows_view() == crate::sparse::transpose_rows(
                            matrix_rows_spec(
                                seed,
                                pre_off(lens_spec, t),
                                lens_spec[t + 1],
                                lens_spec[t],
                                pre_density(lens_spec, t),
                                p,
                            ),
                            lens_spec[t],
                        ),
                decreases k - i,
            {
                proof {
                    assert(pre@[i as int].rows_view() == matrix_rows_spec(
                        seed,
                        pre_off(lens_spec, i as int),
                        lens_spec[i as int + 1],
                        lens_spec[i as int],
                        pre_density(lens_spec, i as int),
                        p,
                    ));
                }
                pre_t.push(pre[i].transpose());
                i = i + 1;
            }
            let mut post_t: Vec<SparseMatrix<F>> = Vec::new();
            let mut j: usize = 0;
            while j < k
                invariant
                    j <= k,
                    k == post@.len(),
                    generated_chain(pre@, post@, ml as nat, seed, cs),
                    lens_spec == chain_lens(ml as nat, cs),
                    p == F::modulus(),
                    post_t@.len() == j,
                    forall|t: int|
                        0 <= t < j ==> (#[trigger] post_t@[t]).wf() && post_t@[t].rows == post_cols(
                            lens_spec,
                            cs,
                            t,
                        ) && post_t@[t].cols == post_rows(lens_spec, cs, t)
                            && post_t@[t].rows_view() == crate::sparse::transpose_rows(
                            matrix_rows_spec(
                                seed,
                                post_off(lens_spec, cs, t),
                                post_rows(lens_spec, cs, t),
                                post_cols(lens_spec, cs, t),
                                post_density(lens_spec, cs, t),
                                p,
                            ),
                            post_cols(lens_spec, cs, t),
                        ),
                decreases k - j,
            {
                proof {
                    assert(post@[j as int].rows_view() == matrix_rows_spec(
                        seed,
                        post_off(lens_spec, cs, j as int),
                        post_rows(lens_spec, cs, j as int),
                        post_cols(lens_spec, cs, j as int),
                        post_density(lens_spec, cs, j as int),
                        p,
                    ));
                }
                post_t.push(post[j].transpose());
                j = j + 1;
            }
            proof {
                // the transposed chain's shapes fit together
                let kk = pre_t@.len() as int;
                assert forall|i2: int| 0 <= i2 < kk - 1 implies #[trigger] crate::encode::rev_link_ok(
                    pre_t@,
                    i2,
                ) by {
                    assert(pre_t@[i2 + 1].rows == lens_spec[i2 + 1]);
                    assert(pre_t@[i2].cols == lens_spec[i2 + 1]);
                }
                assert forall|j2: int|
                    0 <= j2 < kk - 1 implies #[trigger] crate::encode::rev_width_ok(
                    pre_t@,
                    post_t@,
                    j2,
                ) by {
                    assert(level_ok(lens_spec, cs, j2 + 1));
                    assert(post_t@[j2].rows == post_cols(lens_spec, cs, j2));
                    assert(pre_t@[j2].cols == lens_spec[j2 + 1]);
                    assert(post_t@[j2 + 1].rows == post_cols(lens_spec, cs, j2 + 1));
                    assert(post_t@[j2 + 1].cols == post_rows(lens_spec, cs, j2 + 1));
                }
                assert(pre_t@[kk - 1].cols == lens_spec[kk]);
                assert(post_t@[kk - 1].rows == post_cols(lens_spec, cs, kk - 1));
                lemma_target_ge(lens_spec[kk], cs);
                assert(crate::encode::rev_chain_wf(pre_t@, post_t@));
                // and the reverse buffer is exactly the codeword length
                assert(level_ok(lens_spec, cs, 0));
                assert(pre_t@[0].rows == lens_spec[0]);
                assert(lens_spec[0] == ml as nat);
                assert(post_t@[0].rows == post_cols(lens_spec, cs, 0));
                assert(post_t@[0].cols == post_rows(lens_spec, cs, 0));
                assert(pre_t@[0].rows + post_t@[0].rows + post_t@[0].cols == target_len(
                    ml as nat,
                    cs,
                ));
            }
            Some((pre_t, post_t))
        },
        None => None,
    }
}

} // verus!
