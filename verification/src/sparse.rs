//! Sparse matrices over a prime field, in compressed sparse row form.
//!
//! A matrix is `rows x cols`; row `i` holds its nonzero entries at
//! `indices[indptr[i] .. indptr[i+1]]`, at strictly increasing column
//! indices with nonzero values.  The only operation the code needs is the
//! matrix-vector product against a window of a buffer, whose exact modular
//! semantics is given by [`dot_row`].

use crate::field::Field;
use vstd::prelude::*;

verus! {

use vstd::arithmetic::div_mod::lemma_add_mod_noop_right;

/// A sparse matrix in compressed sparse row form.
pub struct SparseMatrix<F: Field> {
    pub rows: usize,
    pub cols: usize,
    pub indptr: Vec<usize>,
    pub indices: Vec<usize>,
    pub vals: Vec<F>,
}

/// The residues of the window `s[start .. start + len]`.
pub open spec fn vals_window<F: Field>(s: Seq<F>, start: int, len: int) -> Seq<nat> {
    Seq::new(len as nat, |j: int| s[start + j].val())
}

/// The residues of a whole sequence of field elements.
pub open spec fn vals_of<F: Field>(s: Seq<F>) -> Seq<nat> {
    Seq::new(s.len(), |j: int| s[j].val())
}

/// All elements of the window `s[start .. start + len]` are reduced residues.
pub open spec fn window_inv<F: Field>(s: Seq<F>, start: int, len: int) -> bool {
    forall|j: int| start <= j < start + len ==> (#[trigger] s[j]).inv()
}

/// All elements are reduced residues.
pub open spec fn all_inv<F: Field>(s: Seq<F>) -> bool {
    forall|j: int| 0 <= j < s.len() ==> (#[trigger] s[j]).inv()
}

/// The sum, modulo `p`, of `e.1 * x[e.0]` over the first `j` entries `e`,
/// accumulated left to right with a reduction after every step.
pub open spec fn dot_prefix(entries: Seq<(nat, nat)>, x: Seq<nat>, p: nat, j: int) -> nat
    decreases j,
{
    if j <= 0 {
        0
    } else {
        (dot_prefix(entries, x, p, j - 1) + entries[j - 1].1 * x[entries[j - 1].0 as int]) % p
    }
}

/// The dot product, modulo `p`, of a sparse row with a dense vector.
pub open spec fn dot_row(entries: Seq<(nat, nat)>, x: Seq<nat>, p: nat) -> nat {
    dot_prefix(entries, x, p, entries.len() as int)
}

impl<F: Field> SparseMatrix<F> {
    /// Structural invariant of the compressed sparse row form.
    #[verifier::opaque]
    pub open spec fn wf(self) -> bool {
        &&& self.indptr@.len() == self.rows + 1
        &&& self.indptr@[0] == 0
        &&& self.indptr@[self.rows as int] == self.indices@.len()
        &&& forall|i1: int, i2: int|
            #![trigger self.indptr@[i1], self.indptr@[i2]]
            0 <= i1 <= i2 <= self.rows ==> self.indptr@[i1] <= self.indptr@[i2]
        &&& forall|i: int| 0 <= i <= self.rows ==> #[trigger] self.indptr@[i] <= self.indices@.len()
        &&& self.vals@.len() == self.indices@.len()
        &&& forall|k: int| 0 <= k < self.indices@.len() ==> #[trigger] self.indices@[k] < self.cols
        &&& forall|k: int|
            0 <= k < self.vals@.len() ==> (#[trigger] self.vals@[k]).inv() && self.vals@[k].val()
                != 0
        &&& forall|i: int, k1: int, k2: int|
            #![trigger self.indptr@[i], self.indices@[k1], self.indices@[k2]]
            0 <= i < self.rows && self.indptr@[i] <= k1 < k2 < self.indptr@[i + 1]
                ==> self.indices@[k1] < self.indices@[k2]
    }

    /// The `(column, residue)` entries of row `i`, in column order.
    pub open spec fn row_entries(self, i: int) -> Seq<(nat, nat)> {
        Seq::new(
            (self.indptr@[i + 1] - self.indptr@[i]) as nat,
            |j: int|
                (
                    self.indices@[self.indptr@[i] + j] as nat,
                    self.vals@[self.indptr@[i] + j].val(),
                ),
        )
    }

    /// The matrix as a sequence of rows of `(column, residue)` entries.
    pub open spec fn rows_view(self) -> Seq<Seq<(nat, nat)>> {
        Seq::new(self.rows as nat, |i: int| self.row_entries(i))
    }

    /// Multiply this matrix by the window `x[x_start .. x_start + cols]`.
    pub fn mat_vec(&self, x: &Vec<F>, x_start: usize) -> (r: Vec<F>)
        requires
            self.wf(),
            x_start + self.cols <= x@.len(),
            window_inv(x@, x_start as int, self.cols as int),
        ensures
            r@.len() == self.rows,
            all_inv(r@),
            forall|i: int|
                0 <= i < self.rows ==> (#[trigger] r@[i]).val() == dot_row(
                    self.row_entries(i),
                    vals_window(x@, x_start as int, self.cols as int),
                    F::modulus(),
                ),
    {
        let ghost xs = vals_window(x@, x_start as int, self.cols as int);
        let ghost p = F::modulus();
        let xlen = x.len();
        proof {
            reveal(SparseMatrix::wf);
            F::lemma_modulus();
        }
        let mut r: Vec<F> = Vec::new();
        let mut i: usize = 0;
        while i < self.rows
            invariant
                i <= self.rows,
                self.wf(),
                x_start + self.cols <= x@.len(),
                x@.len() == xlen,
                window_inv(x@, x_start as int, self.cols as int),
                xs == vals_window(x@, x_start as int, self.cols as int),
                p == F::modulus(),
                p > 1,
                r@.len() == i,
                all_inv(r@),
                forall|i2: int|
                    0 <= i2 < i ==> (#[trigger] r@[i2]).val() == dot_row(
                        self.row_entries(i2),
                        xs,
                        p,
                    ),
            decreases self.rows - i,
        {
            proof {
                reveal(SparseMatrix::wf);
            }
            let ghost entries = self.row_entries(i as int);
            let start = self.indptr[i];
            let end = self.indptr[i + 1];
            let mut s = F::zero();
            let mut k = start;
            while k < end
                invariant
                    self.wf(),
                    i < self.rows,
                    x_start + self.cols <= x@.len(),
                    x@.len() == xlen,
                    window_inv(x@, x_start as int, self.cols as int),
                    xs == vals_window(x@, x_start as int, self.cols as int),
                    p == F::modulus(),
                    p > 1,
                    start == self.indptr@[i as int],
                    end == self.indptr@[i as int + 1],
                    entries == self.row_entries(i as int),
                    start <= k <= end,
                    s.inv(),
                    s.val() == dot_prefix(entries, xs, p, k - start),
                decreases end - k,
            {
                proof {
                    reveal(SparseMatrix::wf);
                    assert(self.indptr@[i as int + 1] <= self.indices@.len());
                }
                let c = self.indices[k];
                proof {
                    assert(self.indices@[k as int] < self.cols);
                }
                let t = self.vals[k].mul(x[x_start + c]);
                proof {
                    let j = k - start;
                    assert(entries[j] == (
                        self.indices@[k as int] as nat,
                        self.vals@[k as int].val(),
                    ));
                    assert(xs[c as int] == x@[x_start + c].val());
                    lemma_add_mod_noop_right(
                        s.val() as int,
                        (self.vals@[k as int].val() * x@[x_start + c].val()) as int,
                        p as int,
                    );
                }
                s = s.add(t);
                k = k + 1;
            }
            r.push(s);
            i = i + 1;
        }
        r
    }
}

/// The `(column, residue)` pairs stored at positions `a .. b` of parallel
/// index and value arrays.
pub open spec fn stored_pairs<F: Field>(indices: Seq<usize>, vals: Seq<F>, a: int, b: int) -> Seq<
    (nat, nat),
> {
    Seq::new((b - a) as nat, |j: int| (indices[a + j] as nat, vals[a + j].val()))
}

/// The value at column `c` of a row of entries, if the row holds one
/// (taking the first match; the rows of a well-formed matrix hold each
/// column at most once).
pub open spec fn row_lookup(e: Seq<(nat, nat)>, c: nat) -> Option<nat>
    decreases e.len(),
{
    if e.len() == 0 {
        None
    } else if e[0].0 == c {
        Some(e[0].1)
    } else {
        row_lookup(e.subrange(1, e.len() as int), c)
    }
}

/// Row `c` of the transpose, built from the first `i` rows: the entries
/// `(i2, v)` for every row `i2` that holds `(c, v)`, in row order.
pub open spec fn transpose_row(rows: Seq<Seq<(nat, nat)>>, c: nat, i: int) -> Seq<(nat, nat)>
    decreases i,
{
    if i <= 0 {
        Seq::empty()
    } else {
        transpose_row(rows, c, i - 1) + match row_lookup(rows[i - 1], c) {
            Some(v) => seq![(((i - 1) as nat), v)],
            None => Seq::empty(),
        }
    }
}

/// The rows of the transpose of a matrix given by its rows and width.
pub open spec fn transpose_rows(rows: Seq<Seq<(nat, nat)>>, cols: nat) -> Seq<Seq<(nat, nat)>> {
    Seq::new(cols, |c: int| transpose_row(rows, c as nat, rows.len() as int))
}

impl<F: Field> SparseMatrix<F> {
    /// The transpose: row `c` of the result holds `(i, v)` exactly where
    /// row `i` of `self` holds `(c, v)`.
    #[verifier::rlimit(100)]
    #[verifier::spinoff_prover]
    pub fn transpose(&self) -> (r: SparseMatrix<F>)
        requires
            self.wf(),
        ensures
            r.wf(),
            r.rows == self.cols,
            r.cols == self.rows,
            r.rows_view() == transpose_rows(self.rows_view(), self.cols as nat),
    {
        proof {
            reveal(SparseMatrix::wf);
        }
        let ghost rows_v = self.rows_view();
        let mut indptr: Vec<usize> = Vec::new();
        let mut indices: Vec<usize> = Vec::new();
        let mut vals: Vec<F> = Vec::new();
        indptr.push(0);
        let mut c: usize = 0;
        while c < self.cols
            invariant
                c <= self.cols,
                self.wf(),
                rows_v == self.rows_view(),
                indptr@.len() == c + 1,
                indptr@[0] == 0,
                indptr@[c as int] == indices@.len(),
                indices@.len() == vals@.len(),
                forall|t1: int, t2: int|
                    #![trigger indptr@[t1], indptr@[t2]]
                    0 <= t1 <= t2 <= c ==> indptr@[t1] <= indptr@[t2],
                forall|t: int| 0 <= t <= c ==> #[trigger] indptr@[t] <= indices@.len(),
                forall|k2: int| 0 <= k2 < indices@.len() ==> #[trigger] indices@[k2] < self.rows,
                forall|k2: int|
                    0 <= k2 < vals@.len() ==> (#[trigger] vals@[k2]).inv() && vals@[k2].val()
                        != 0,
                forall|t: int, ka: int, kb: int|
                    #![trigger indptr@[t], indices@[ka], indices@[kb]]
                    0 <= t < c && indptr@[t] <= ka < kb < indptr@[t + 1] ==> indices@[ka]
                        < indices@[kb],
                forall|t: int|
                    0 <= t < c ==> stored_pairs(
                        indices@,
                        vals@,
                        indptr@[t] as int,
                        indptr@[t + 1] as int,
                    ) == #[trigger] transpose_row(rows_v, t as nat, self.rows as int),
            decreases self.cols - c,
        {
            let row_start = indices.len();
            let ghost indptr0 = indptr@;
            let ghost ind0 = indices@;
            let ghost vals0 = vals@;
            let mut i: usize = 0;
            while i < self.rows
                invariant
                    i <= self.rows,
                    c < self.cols,
                    self.wf(),
                    rows_v == self.rows_view(),
                    row_start == ind0.len(),
                    ind0.len() <= indices@.len(),
                    indptr@ == indptr0,
                    indptr@.len() == c + 1,
                    indptr@[c as int] == row_start,
                    indices@.len() == vals@.len(),
                    indices@.subrange(0, row_start as int) == ind0,
                    vals@.subrange(0, row_start as int) == vals0,
                    forall|k2: int|
                        0 <= k2 < indices@.len() ==> #[trigger] indices@[k2] < self.rows,
                    forall|k2: int|
                        row_start <= k2 < indices@.len() ==> #[trigger] indices@[k2] < i,
                    forall|k2: int|
                        0 <= k2 < vals@.len() ==> (#[trigger] vals@[k2]).inv() && vals@[k2].val()
                            != 0,
                    forall|ka: int, kb: int|
                        #![trigger indices@[ka], indices@[kb]]
                        row_start <= ka < kb < indices@.len() ==> indices@[ka] < indices@[kb],
                    stored_pairs(indices@, vals@, row_start as int, indices@.len() as int)
                        == transpose_row(rows_v, c as nat, i as int),
                decreases self.rows - i,
            {
                proof {
                    reveal(SparseMatrix::wf);
                }
                let ghost e = self.row_entries(i as int);
                // scan row i of the original for column c
                let start = self.indptr[i];
                let end = self.indptr[i + 1];
                proof {
                    assert(e.subrange(0, e.len() as int) =~= e);
                }
                let mut k = start;
                let mut fv: Option<F> = None;
                while k < end && fv.is_none()
                    invariant
                        start <= k <= end,
                        i < self.rows,
                        c < self.cols,
                        self.wf(),
                        e == self.row_entries(i as int),
                        start == self.indptr@[i as int],
                        end == self.indptr@[i as int + 1],
                        fv is None ==> row_lookup(e, c as nat) == row_lookup(
                            e.subrange(k - start, e.len() as int),
                            c as nat,
                        ),
                        fv matches Some(v) ==> v.inv() && v.val() != 0 && row_lookup(e, c as nat)
                            == Some(v.val()),
                    decreases end - k, (if fv is None { 1int } else { 0int }),
                {
                    proof {
                        reveal(SparseMatrix::wf);
                        assert(self.indptr@[i as int + 1] <= self.indices@.len());
                        assert(e[k - start] == (
                            self.indices@[k as int] as nat,
                            self.vals@[k as int].val(),
                        ));
                        assert(e.subrange(k - start, e.len() as int)[0] == e[k - start]);
                    }
                    if self.indices[k] == c {
                        fv = Some(self.vals[k]);
                    } else {
                        proof {
                            assert(e.subrange(k - start, e.len() as int).subrange(
                                1,
                                e.subrange(k - start, e.len() as int).len() as int,
                            ) =~= e.subrange(k + 1 - start, e.len() as int));
                        }
                        k = k + 1;
                    }
                }
                proof {
                    if k >= end && fv is None {
                        assert(e.subrange(k - start, e.len() as int) =~= Seq::<(nat, nat)>::empty());
                        assert(row_lookup(e, c as nat) is None);
                    }
                    assert(rows_v[i as int] == e);
                }
                let ghost ind_prev = indices@;
                let ghost vals_prev = vals@;
                match fv {
                    Some(v) => {
                        indices.push(i);
                        vals.push(v);
                        proof {
                            let pair = ((i as nat), v.val());
                            assert(stored_pairs(
                                indices@,
                                vals@,
                                row_start as int,
                                indices@.len() as int,
                            ) =~= stored_pairs(
                                ind_prev,
                                vals_prev,
                                row_start as int,
                                ind_prev.len() as int,
                            ) + seq![pair]);
                            assert(indices@.subrange(0, row_start as int) =~= ind0);
                            assert(vals@.subrange(0, row_start as int) =~= vals0);
                        }
                    },
                    None => {
                        proof {
                            assert(stored_pairs(
                                indices@,
                                vals@,
                                row_start as int,
                                indices@.len() as int,
                            ) + Seq::<(nat, nat)>::empty() =~= stored_pairs(
                                indices@,
                                vals@,
                                row_start as int,
                                indices@.len() as int,
                            ));
                        }
                    },
                }
                i = i + 1;
            }
            let row_end = indices.len();
            indptr.push(row_end);
            c = c + 1;
            proof {
                let inds = indices@;
                let vs = vals@;
                assert forall|t: int, ka: int, kb: int|
                    #![trigger indptr@[t], inds[ka], inds[kb]]
                    0 <= t < c && indptr@[t] <= ka < kb < indptr@[t + 1] implies inds[ka]
                    < inds[kb] by {
                    if t < c - 1 {
                        assert(indptr@[t] == indptr0[t]);
                        assert(indptr@[t + 1] == indptr0[t + 1]);
                        assert(indptr0[t + 1] <= row_start);
                        assert(ind0[ka] == indices@.subrange(0, row_start as int)[ka]);
                        assert(ind0[kb] == indices@.subrange(0, row_start as int)[kb]);
                    } else {
                        assert(indptr@[t] == row_start);
                        assert(indptr@[t + 1] == row_end);
                    }
                }
                assert forall|t: int| 0 <= t < c implies stored_pairs(
                    inds,
                    vs,
                    indptr@[t] as int,
                    indptr@[t + 1] as int,
                ) == #[trigger] transpose_row(rows_v, t as nat, self.rows as int) by {
                    if t < c - 1 {
                        assert(indptr@[t] == indptr0[t]);
                        assert(indptr@[t + 1] == indptr0[t + 1]);
                        assert(stored_pairs(inds, vs, indptr@[t] as int, indptr@[t + 1] as int)
                            =~= stored_pairs(
                            ind0,
                            vals0,
                            indptr0[t] as int,
                            indptr0[t + 1] as int,
                        ));
                    } else {
                        assert(indptr@[t] == row_start);
                        assert(indptr@[t + 1] == row_end);
                    }
                }
            }
        }
        let r = SparseMatrix { rows: self.cols, cols: self.rows, indptr, indices, vals };
        proof {
            reveal(SparseMatrix::wf);
            assert forall|t: int| 0 <= t < r.rows implies r.row_entries(t)
                == transpose_rows(rows_v, self.cols as nat)[t] by {
                assert(r.row_entries(t) =~= stored_pairs(
                    r.indices@,
                    r.vals@,
                    r.indptr@[t] as int,
                    r.indptr@[t + 1] as int,
                ));
            }
            assert(r.rows_view() =~= transpose_rows(rows_v, self.cols as nat));
        }
        r
    }
}

/// Some row of a well-formed matrix owns position `k` of the entry arrays.
proof fn lemma_locate_row<F: Field>(m: SparseMatrix<F>, k: int, i: int)
    requires
        m.wf(),
        0 <= i < m.rows,
        m.indptr@[i] <= k < m.indices@.len(),
    ensures
        exists|j: int|
            i <= j < m.rows && #[trigger] m.indptr@[j] <= k && k < m.indptr@[j + 1],
    decreases m.rows - i,
{
    reveal(SparseMatrix::wf);
    if k < m.indptr@[i + 1] {
        assert(m.indptr@[i] <= k && k < m.indptr@[i + 1]);
    } else {
        assert(i + 1 < m.rows);
        lemma_locate_row(m, k, i + 1);
    }
}

/// One position of the entry arrays is fixed by the rows.
proof fn lemma_entry_eq<F: Field>(m1: SparseMatrix<F>, m2: SparseMatrix<F>, k: int)
    requires
        m1.wf(),
        m2.wf(),
        m1.rows == m2.rows,
        m1.cols == m2.cols,
        m1.rows_view() == m2.rows_view(),
        forall|i: int| 0 <= i <= m1.rows ==> #[trigger] m1.indptr@[i] == m2.indptr@[i],
        0 <= k < m1.indices@.len(),
    ensures
        m1.indices@[k] == m2.indices@[k],
        m1.vals@[k] == m2.vals@[k],
{
    reveal(SparseMatrix::wf);
    assert(m1.indptr@[0] <= k);
    lemma_locate_row(m1, k, 0);
    let j = choose|j: int|
        0 <= j < m1.rows && #[trigger] m1.indptr@[j] <= k && k < m1.indptr@[j + 1];
    let e1 = m1.row_entries(j);
    let e2 = m2.row_entries(j);
    assert(e1 == m1.rows_view()[j] && e2 == m2.rows_view()[j]);
    let off = k - m1.indptr@[j];
    assert(e1[off] == (m1.indices@[m1.indptr@[j] + off] as nat, m1.vals@[m1.indptr@[j]
        + off].val()));
    assert(e2[off] == (m2.indices@[m2.indptr@[j] + off] as nat, m2.vals@[m2.indptr@[j]
        + off].val()));
    m1.vals@[k].lemma_val_injective(m2.vals@[k]);
}

/// The entry arrays of a well-formed matrix are determined by its size and
/// its rows of `(column, residue)` entries: two matrices with the same
/// shapes and the same rows hold identical data, element for element.
pub proof fn lemma_matrix_content_deterministic<F: Field>(m1: SparseMatrix<F>, m2: SparseMatrix<F>)
    requires
        m1.wf(),
        m2.wf(),
        m1.rows == m2.rows,
        m1.cols == m2.cols,
        m1.rows_view() == m2.rows_view(),
    ensures
        m1.indptr@ == m2.indptr@,
        m1.indices@ == m2.indices@,
        m1.vals@ == m2.vals@,
{
    assert(m1.indptr@.len() == m1.rows + 1 && m2.indptr@.len() == m2.rows + 1
        && m1.indices@.len() == m1.indptr@[m1.rows as int] && m2.indices@.len()
        == m2.indptr@[m2.rows as int] && m1.vals@.len() == m1.indices@.len() && m2.vals@.len()
        == m2.indices@.len()) by {
        reveal(SparseMatrix::wf);
    }
    assert forall|i: int| 0 <= i <= m1.rows implies #[trigger] m1.indptr@[i]
        == m2.indptr@[i] by {
        lemma_indptr_prefix_eq(m1, m2, i);
    }
    assert(m1.indptr@ =~= m2.indptr@) by {
        assert forall|i: int| 0 <= i < m1.indptr@.len() implies m1.indptr@[i]
            == m2.indptr@[i] by {
            lemma_indptr_prefix_eq(m1, m2, i);
        }
    }
    assert forall|k: int| 0 <= k < m1.indices@.len() implies #[trigger] m1.indices@[k]
        == m2.indices@[k] && m1.vals@[k] == m2.vals@[k] by {
        lemma_entry_eq(m1, m2, k);
    }
    assert(m1.indices@ =~= m2.indices@);
    assert(m1.vals@ =~= m2.vals@) by {
        assert forall|k: int| 0 <= k < m1.vals@.len() implies m1.vals@[k] == m2.vals@[k] by {
            lemma_entry_eq(m1, m2, k);
        }
    }
}

/// The row boundaries are sums of the row lengths, which the rows fix.
proof fn lemma_indptr_prefix_eq<F: Field>(m1: SparseMatrix<F>, m2: SparseMatrix<F>, i: int)
    requires
        m1.wf(),
        m2.wf(),
        m1.rows == m2.rows,
        m1.rows_view() == m2.rows_view(),
        0 <= i <= m1.rows,
    ensures
        m1.indptr@[i] == m2.indptr@[i],
    decreases i,
{
    reveal(SparseMatrix::wf);
    if i > 0 {
        lemma_indptr_prefix_eq(m1, m2, i - 1);
        assert(m1.rows_view()[i - 1] == m1.row_entries(i - 1));
        assert(m2.rows_view()[i - 1] == m2.row_entries(i - 1));
        assert(m1.row_entries(i - 1).len() == m1.indptr@[i] - m1.indptr@[i - 1]);
        assert(m2.row_entries(i - 1).len() == m2.indptr@[i] - m2.indptr@[i - 1]);
    }
}

} // verus!
