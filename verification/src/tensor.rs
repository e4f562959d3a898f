//! Dense tensors of field elements: the committed data.
//!
//! A `t`-dimensional array is a flat vector in row-major order with its
//! dimensions; `at` gives the residue at a coordinate, and the setters'
//! contracts pin every coordinate of the result.

use crate::field::Field;
use crate::sparse::all_inv;
use vstd::prelude::*;

verus! {

/// Row-major position of `(i1, i2)` in a `d1 x d2` array.
pub open spec fn pos2(d2: int, i1: int, i2: int) -> int {
    i1 * d2 + i2
}

/// Row-major position of `(i1, i2, i3)` in a `d1 x d2 x d3` array.
pub open spec fn pos3(d2: int, d3: int, i1: int, i2: int, i3: int) -> int {
    (i1 * d2 + i2) * d3 + i3
}

/// Row-major position of `(i1, i2, i3, i4)`.
pub open spec fn pos4(d2: int, d3: int, d4: int, i1: int, i2: int, i3: int, i4: int) -> int {
    ((i1 * d2 + i2) * d3 + i3) * d4 + i4
}

pub proof fn lemma_pos2(d1: int, d2: int, i1: int, i2: int)
    by (nonlinear_arith)
    requires
        0 <= i1 < d1,
        0 <= i2 < d2,
    ensures
        0 <= pos2(d2, i1, i2) < d1 * d2,
{
}

/// Distinct coordinates occupy distinct positions.
pub proof fn lemma_pos2_inj(d1: int, d2: int, i1: int, i2: int, j1: int, j2: int)
    by (nonlinear_arith)
    requires
        0 <= i1 < d1,
        0 <= i2 < d2,
        0 <= j1 < d1,
        0 <= j2 < d2,
        pos2(d2, i1, i2) == pos2(d2, j1, j2),
    ensures
        i1 == j1 && i2 == j2,
{
}

pub proof fn lemma_pos3(d1: int, d2: int, d3: int, i1: int, i2: int, i3: int)
    by (nonlinear_arith)
    requires
        0 <= i1 < d1,
        0 <= i2 < d2,
        0 <= i3 < d3,
    ensures
        0 <= pos3(d2, d3, i1, i2, i3) < d1 * d2 * d3,
{
}

pub proof fn lemma_pos3_inj(
    d1: int,
    d2: int,
    d3: int,
    i1: int,
    i2: int,
    i3: int,
    j1: int,
    j2: int,
    j3: int,
)
    by (nonlinear_arith)
    requires
        0 <= i1 < d1,
        0 <= i2 < d2,
        0 <= i3 < d3,
        0 <= j1 < d1,
        0 <= j2 < d2,
        0 <= j3 < d3,
        pos3(d2, d3, i1, i2, i3) == pos3(d2, d3, j1, j2, j3),
    ensures
        i1 == j1 && i2 == j2 && i3 == j3,
{
}

pub proof fn lemma_pos4(d1: int, d2: int, d3: int, d4: int, i1: int, i2: int, i3: int, i4: int)
    by (nonlinear_arith)
    requires
        0 <= i1 < d1,
        0 <= i2 < d2,
        0 <= i3 < d3,
        0 <= i4 < d4,
    ensures
        0 <= pos4(d2, d3, d4, i1, i2, i3, i4) < d1 * d2 * d3 * d4,
{
}

pub proof fn lemma_pos4_inj(
    d1: int,
    d2: int,
    d3: int,
    d4: int,
    i1: int,
    i2: int,
    i3: int,
    i4: int,
    j1: int,
    j2: int,
    j3: int,
    j4: int,
)
    by (nonlinear_arith)
    requires
        0 <= i1 < d1,
        0 <= i2 < d2,
        0 <= i3 < d3,
        0 <= i4 < d4,
        0 <= j1 < d1,
        0 <= j2 < d2,
        0 <= j3 < d3,
        0 <= j4 < d4,
        pos4(d2, d3, d4, i1, i2, i3, i4) == pos4(d2, d3, d4, j1, j2, j3, j4),
    ensures
        i1 == j1 && i2 == j2 && i3 == j3 && i4 == j4,
{
}

/// A two-dimensional array of field elements.
pub struct Tensor2<F: Field> {
    pub d1: usize,
    pub d2: usize,
    pub data: Vec<F>,
}

impl<F: Field> Tensor2<F> {
    pub open spec fn wf(self) -> bool {
        &&& self.d1 * self.d2 <= usize::MAX
        &&& self.data@.len() == self.d1 * self.d2
        &&& all_inv(self.data@)
    }

    /// The residue at `(i1, i2)`.
    pub open spec fn at(self, i1: int, i2: int) -> nat {
        self.data@[pos2(self.d2 as int, i1, i2)].val()
    }

    /// A `d1 x d2` array of zeros.
    pub fn zero(d1: usize, d2: usize) -> (r: Tensor2<F>)
        requires
            d1 * d2 <= usize::MAX,
        ensures
            r.wf(),
            r.d1 == d1,
            r.d2 == d2,
            forall|i1: int, i2: int|
                0 <= i1 < d1 && 0 <= i2 < d2 ==> #[trigger] r.at(i1, i2) == 0,
    {
        proof {
            assert(d1 * d2 >= 0) by (nonlinear_arith);
        }
        let n = d1 * d2;
        let mut data: Vec<F> = Vec::new();
        let z = F::zero();
        let mut i: usize = 0;
        while i < n
            invariant
                i <= n,
                z.inv() && z.val() == 0,
                data@.len() == i,
                forall|t: int| 0 <= t < i ==> data@[t] == z,
            decreases n - i,
        {
            data.push(z);
            i = i + 1;
        }
        let r = Tensor2 { d1, d2, data };
        proof {
            assert forall|i1: int, i2: int|
                0 <= i1 < d1 && 0 <= i2 < d2 implies #[trigger] r.at(i1, i2) == 0 by {
                lemma_pos2(d1 as int, d2 as int, i1, i2);
            }
        }
        r
    }

    pub fn get(&self, i1: usize, i2: usize) -> (r: F)
        requires
            self.wf(),
            i1 < self.d1,
            i2 < self.d2,
        ensures
            r.inv(),
            r.val() == self.at(i1 as int, i2 as int),
    {
        proof {
            lemma_pos2(self.d1 as int, self.d2 as int, i1 as int, i2 as int);
        }
        self.data[i1 * self.d2 + i2]
    }

    pub fn set(&mut self, i1: usize, i2: usize, v: F)
        requires
            old(self).wf(),
            i1 < old(self).d1,
            i2 < old(self).d2,
            v.inv(),
        ensures
            final (self).wf(),
            final (self).d1 == old(self).d1,
            final (self).d2 == old(self).d2,
            final (self).at(i1 as int, i2 as int) == v.val(),
            forall|j1: int, j2: int|
                0 <= j1 < old(self).d1 && 0 <= j2 < old(self).d2 && !(j1 == i1 && j2 == i2)
                    ==> #[trigger] final (self).at(j1, j2) == old(self).at(j1, j2),
    {
        proof {
            lemma_pos2(self.d1 as int, self.d2 as int, i1 as int, i2 as int);
        }
        let p = i1 * self.d2 + i2;
        self.data.set(p, v);
        proof {
            assert forall|j1: int, j2: int|
                0 <= j1 < self.d1 && 0 <= j2 < self.d2 && !(j1 == i1 && j2 == i2)
                    implies #[trigger] self.at(j1, j2) == old(self).at(j1, j2) by {
                lemma_pos2(self.d1 as int, self.d2 as int, j1, j2);
                if pos2(self.d2 as int, j1, j2) == pos2(self.d2 as int, i1 as int, i2 as int) {
                    lemma_pos2_inj(
                        self.d1 as int,
                        self.d2 as int,
                        i1 as int,
                        i2 as int,
                        j1,
                        j2,
                    );
                }
            }
        }
    }
}

/// A three-dimensional array of field elements.
pub struct Tensor3<F: Field> {
    pub d1: usize,
    pub d2: usize,
    pub d3: usize,
    pub data: Vec<F>,
}

impl<F: Field> Tensor3<F> {
    pub open spec fn wf(self) -> bool {
        &&& self.d1 * self.d2 <= usize::MAX
        &&& self.d1 * self.d2 * self.d3 <= usize::MAX
        &&& self.data@.len() == self.d1 * self.d2 * self.d3
        &&& all_inv(self.data@)
    }

    /// The residue at `(i1, i2, i3)`.
    pub open spec fn at(self, i1: int, i2: int, i3: int) -> nat {
        self.data@[pos3(self.d2 as int, self.d3 as int, i1, i2, i3)].val()
    }

    /// A `d1 x d2 x d3` array of zeros.
    pub fn zero(d1: usize, d2: usize, d3: usize) -> (r: Tensor3<F>)
        requires
            d1 * d2 <= usize::MAX,
            d1 * d2 * d3 <= usize::MAX,
        ensures
            r.wf(),
            r.d1 == d1,
            r.d2 == d2,
            r.d3 == d3,
            forall|i1: int, i2: int, i3: int|
                0 <= i1 < d1 && 0 <= i2 < d2 && 0 <= i3 < d3 ==> #[trigger] r.at(i1, i2, i3)
                    == 0,
    {
        proof {
            assert(d1 * d2 >= 0 && d1 * d2 * d3 >= 0 && (d1 * d2) * d3 == d1 * d2 * d3)
                by (nonlinear_arith);
        }
        let n = (d1 * d2) * d3;
        let mut data: Vec<F> = Vec::new();
        let z = F::zero();
        let mut i: usize = 0;
        while i < n
            invariant
                i <= n,
                z.inv() && z.val() == 0,
                data@.len() == i,
                forall|t: int| 0 <= t < i ==> data@[t] == z,
            decreases n - i,
        {
            data.push(z);
            i = i + 1;
        }
        let r = Tensor3 { d1, d2, d3, data };
        proof {
            assert forall|i1: int, i2: int, i3: int|
                0 <= i1 < d1 && 0 <= i2 < d2 && 0 <= i3 < d3 implies #[trigger] r.at(
                i1,
                i2,
                i3,
            ) == 0 by {
                lemma_pos3(d1 as int, d2 as int, d3 as int, i1, i2, i3);
            }
        }
        r
    }

    pub fn get(&self, i1: usize, i2: usize, i3: usize) -> (r: F)
        requires
            self.wf(),
            i1 < self.d1,
            i2 < self.d2,
            i3 < self.d3,
        ensures
            r.inv(),
            r.val() == self.at(i1 as int, i2 as int, i3 as int),
    {
        proof {
            lemma_pos2(self.d1 as int, self.d2 as int, i1 as int, i2 as int);
            lemma_pos3(
                self.d1 as int,
                self.d2 as int,
                self.d3 as int,
                i1 as int,
                i2 as int,
                i3 as int,
            );
            assert((i1 * self.d2 + i2) * self.d3 + i3 == pos3(
                self.d2 as int,
                self.d3 as int,
                i1 as int,
                i2 as int,
                i3 as int,
            ));
        }
        self.data[(i1 * self.d2 + i2) * self.d3 + i3]
    }

    pub fn set(&mut self, i1: usize, i2: usize, i3: usize, v: F)
        requires
            old(self).wf(),
            i1 < old(self).d1,
            i2 < old(self).d2,
            i3 < old(self).d3,
            v.inv(),
        ensures
            final (self).wf(),
            final (self).d1 == old(self).d1,
            final (self).d2 == old(self).d2,
            final (self).d3 == old(self).d3,
            final (self).at(i1 as int, i2 as int, i3 as int) == v.val(),
            forall|j1: int, j2: int, j3: int|
                0 <= j1 < old(self).d1 && 0 <= j2 < old(self).d2 && 0 <= j3 < old(self).d3 && !(
                j1 == i1 && j2 == i2 && j3 == i3) ==> #[trigger] final (self).at(j1, j2, j3)
                    == old(self).at(j1, j2, j3),
    {
        proof {
            lemma_pos2(self.d1 as int, self.d2 as int, i1 as int, i2 as int);
            lemma_pos3(
                self.d1 as int,
                self.d2 as int,
                self.d3 as int,
                i1 as int,
                i2 as int,
                i3 as int,
            );
            assert((i1 * self.d2 + i2) * self.d3 + i3 == pos3(
                self.d2 as int,
                self.d3 as int,
                i1 as int,
                i2 as int,
                i3 as int,
            ));
        }
        let p = (i1 * self.d2 + i2) * self.d3 + i3;
        self.data.set(p, v);
        proof {
            assert forall|j1: int, j2: int, j3: int|
                0 <= j1 < self.d1 && 0 <= j2 < self.d2 && 0 <= j3 < self.d3 && !(j1 == i1 && j2
                    == i2 && j3 == i3) implies #[trigger] self.at(j1, j2, j3) == old(self).at(
                j1,
                j2,
                j3,
            ) by {
                lemma_pos3(self.d1 as int, self.d2 as int, self.d3 as int, j1, j2, j3);
                if pos3(self.d2 as int, self.d3 as int, j1, j2, j3) == pos3(
                    self.d2 as int,
                    self.d3 as int,
                    i1 as int,
                    i2 as int,
                    i3 as int,
                ) {
                    lemma_pos3_inj(
                        self.d1 as int,
                        self.d2 as int,
                        self.d3 as int,
                        i1 as int,
                        i2 as int,
                        i3 as int,
                        j1,
                        j2,
                        j3,
                    );
                }
            }
        }
    }
}

/// A four-dimensional array of field elements.
pub struct Tensor4<F: Field> {
    pub d1: usize,
    pub d2: usize,
    pub d3: usize,
    pub d4: usize,
    pub data: Vec<F>,
}

impl<F: Field> Tensor4<F> {
    pub open spec fn wf(self) -> bool {
        &&& self.d1 * self.d2 <= usize::MAX
        &&& self.d1 * self.d2 * self.d3 <= usize::MAX
        &&& self.d1 * self.d2 * self.d3 * self.d4 <= usize::MAX
        &&& self.data@.len() == self.d1 * self.d2 * self.d3 * self.d4
        &&& all_inv(self.data@)
    }

    /// The residue at `(i1, i2, i3, i4)`.
    pub open spec fn at(self, i1: int, i2: int, i3: int, i4: int) -> nat {
        self.data@[pos4(
            self.d2 as int,
            self.d3 as int,
            self.d4 as int,
            i1,
            i2,
            i3,
            i4,
        )].val()
    }

    /// A `d1 x d2 x d3 x d4` array of zeros.
    pub fn zero(d1: usize, d2: usize, d3: usize, d4: usize) -> (r: Tensor4<F>)
        requires
            d1 * d2 <= usize::MAX,
            d1 * d2 * d3 <= usize::MAX,
            d1 * d2 * d3 * d4 <= usize::MAX,
        ensures
            r.wf(),
            r.d1 == d1,
            r.d2 == d2,
            r.d3 == d3,
            r.d4 == d4,
            forall|i1: int, i2: int, i3: int, i4: int|
                0 <= i1 < d1 && 0 <= i2 < d2 && 0 <= i3 < d3 && 0 <= i4 < d4
                    ==> #[trigger] r.at(i1, i2, i3, i4) == 0,
    {
        proof {
            assert(d1 * d2 >= 0 && d1 * d2 * d3 >= 0 && d1 * d2 * d3 * d4 >= 0 && ((d1 * d2)
                * d3) * d4 == d1 * d2 * d3 * d4 && (d1 * d2) * d3 == d1 * d2 * d3)
                by (nonlinear_arith);
        }
        let n = ((d1 * d2) * d3) * d4;
        let mut data: Vec<F> = Vec::new();
        let z = F::zero();
        let mut i: usize = 0;
        while i < n
            invariant
                i <= n,
                z.inv() && z.val() == 0,
                data@.len() == i,
                forall|t: int| 0 <= t < i ==> data@[t] == z,
            decreases n - i,
        {
            data.push(z);
            i = i + 1;
        }
        let r = Tensor4 { d1, d2, d3, d4, data };
        proof {
            assert forall|i1: int, i2: int, i3: int, i4: int|
                0 <= i1 < d1 && 0 <= i2 < d2 && 0 <= i3 < d3 && 0 <= i4 < d4
                    implies #[trigger] r.at(i1, i2, i3, i4) == 0 by {
                lemma_pos4(d1 as int, d2 as int, d3 as int, d4 as int, i1, i2, i3, i4);
            }
        }
        r
    }

    pub fn get(&self, i1: usize, i2: usize, i3: usize, i4: usize) -> (r: F)
        requires
            self.wf(),
            i1 < self.d1,
            i2 < self.d2,
            i3 < self.d3,
            i4 < self.d4,
        ensures
            r.inv(),
            r.val() == self.at(i1 as int, i2 as int, i3 as int, i4 as int),
    {
        proof {
            lemma_pos2(self.d1 as int, self.d2 as int, i1 as int, i2 as int);
            lemma_pos3(
                self.d1 as int,
                self.d2 as int,
                self.d3 as int,
                i1 as int,
                i2 as int,
                i3 as int,
            );
            lemma_pos4(
                self.d1 as int,
                self.d2 as int,
                self.d3 as int,
                self.d4 as int,
                i1 as int,
                i2 as int,
                i3 as int,
                i4 as int,
            );
            assert((i1 * self.d2 + i2) * self.d3 + i3 == pos3(
                self.d2 as int,
                self.d3 as int,
                i1 as int,
                i2 as int,
                i3 as int,
            ));
            assert(((i1 * self.d2 + i2) * self.d3 + i3) * self.d4 + i4 == pos4(
                self.d2 as int,
                self.d3 as int,
                self.d4 as int,
                i1 as int,
                i2 as int,
                i3 as int,
                i4 as int,
            ));
        }
        self.data[((i1 * self.d2 + i2) * self.d3 + i3) * self.d4 + i4]
    }

    pub fn set(&mut self, i1: usize, i2: usize, i3: usize, i4: usize, v: F)
        requires
            old(self).wf(),
            i1 < old(self).d1,
            i2 < old(self).d2,
            i3 < old(self).d3,
            i4 < old(self).d4,
            v.inv(),
        ensures
            final (self).wf(),
            final (self).d1 == old(self).d1,
            final (self).d2 == old(self).d2,
            final (self).d3 == old(self).d3,
            final (self).d4 == old(self).d4,
            final (self).at(i1 as int, i2 as int, i3 as int, i4 as int) == v.val(),
            forall|j1: int, j2: int, j3: int, j4: int|
                0 <= j1 < old(self).d1 && 0 <= j2 < old(self).d2 && 0 <= j3 < old(self).d3 && 0
                    <= j4 < old(self).d4 && !(j1 == i1 && j2 == i2 && j3 == i3 && j4 == i4)
                    ==> #[trigger] final (self).at(j1, j2, j3, j4) == old(self).at(
                    j1,
                    j2,
                    j3,
                    j4,
                ),
    {
        proof {
            lemma_pos2(self.d1 as int, self.d2 as int, i1 as int, i2 as int);
            lemma_pos3(
                self.d1 as int,
                self.d2 as int,
                self.d3 as int,
                i1 as int,
                i2 as int,
                i3 as int,
            );
            lemma_pos4(
                self.d1 as int,
                self.d2 as int,
                self.d3 as int,
                self.d4 as int,
                i1 as int,
                i2 as int,
                i3 as int,
                i4 as int,
            );
            assert((i1 * self.d2 + i2) * self.d3 + i3 == pos3(
                self.d2 as int,
                self.d3 as int,
                i1 as int,
                i2 as int,
                i3 as int,
            ));
            assert(((i1 * self.d2 + i2) * self.d3 + i3) * self.d4 + i4 == pos4(
                self.d2 as int,
                self.d3 as int,
                self.d4 as int,
                i1 as int,
                i2 as int,
                i3 as int,
                i4 as int,
            ));
        }
        let p = ((i1 * self.d2 + i2) * self.d3 + i3) * self.d4 + i4;
        self.data.set(p, v);
        proof {
            assert forall|j1: int, j2: int, j3: int, j4: int|
                0 <= j1 < self.d1 && 0 <= j2 < self.d2 && 0 <= j3 < self.d3 && 0 <= j4 < self.d4
                    && !(j1 == i1 && j2 == i2 && j3 == i3 && j4 == i4) implies #[trigger] self.at(
                j1,
                j2,
                j3,
                j4,
            ) == old(self).at(j1, j2, j3, j4) by {
                lemma_pos4(
                    self.d1 as int,
                    self.d2 as int,
                    self.d3 as int,
                    self.d4 as int,
                    j1,
                    j2,
                    j3,
                    j4,
                );
                if pos4(self.d2 as int, self.d3 as int, self.d4 as int, j1, j2, j3, j4) == pos4(
                    self.d2 as int,
                    self.d3 as int,
                    self.d4 as int,
                    i1 as int,
                    i2 as int,
                    i3 as int,
                    i4 as int,
                ) {
                    lemma_pos4_inj(
                        self.d1 as int,
                        self.d2 as int,
                        self.d3 as int,
                        self.d4 as int,
                        i1 as int,
                        i2 as int,
                        i3 as int,
                        i4 as int,
                        j1,
                        j2,
                        j3,
                        j4,
                    );
                }
            }
        }
    }
}

/// Every entry of a well-formed array is a reduced residue.
pub proof fn lemma_tensor2_reduced<F: Field>(m: Tensor2<F>)
    requires
        m.wf(),
    ensures
        forall|i1: int, i2: int|
            0 <= i1 < m.d1 && 0 <= i2 < m.d2 ==> #[trigger] m.at(i1, i2) < F::modulus(),
{
    assert forall|i1: int, i2: int|
        0 <= i1 < m.d1 && 0 <= i2 < m.d2 implies #[trigger] m.at(i1, i2) < F::modulus() by {
        lemma_pos2(m.d1 as int, m.d2 as int, i1, i2);
        m.data@[pos2(m.d2 as int, i1, i2)].lemma_val();
    }
}

} // verus!
