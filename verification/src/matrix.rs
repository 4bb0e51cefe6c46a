//! Dense matrix kernel over fixed-point scalars.
//!
//! A `Matrix` is a rectangular table of fixed-point values with at least one
//! row and one column. Operations never mutate their operands: each returns a
//! fresh value, and each reports a typed error instead of panicking when a
//! precondition on the data fails.

use vstd::prelude::*;
use crate::errors::MatrixError;
use crate::fixed::{abs_i, fits_i64, fx_add, fx_div, fx_div_v, fx_mul, fx_mul_v, fx_sqrt, fx_sqrt_v, fx_sub, FX_ONE};

verus! {

/// The entry of table `s` at row `i`, column `j`.
pub open spec fn ent(s: Seq<Seq<int>>, i: int, j: int) -> int {
    s[i][j]
}

/// Whether `s` is a `dx` by `dy` table.
pub open spec fn is_table(s: Seq<Seq<int>>, dx: int, dy: int) -> bool {
    s.len() == dx && forall|i: int| 0 <= i < dx ==> (#[trigger] s[i]).len() == dy
}

/// Whether `x` occurs in the index list `l`.
pub open spec fn in_list(l: Seq<usize>, x: int) -> bool {
    exists|i: int| 0 <= i < l.len() && l[i] == x
}

/// The position of `x` in `l` (meaningful when `x` occurs and `l` is distinct).
pub open spec fn idx_in(l: Seq<usize>, x: int) -> int {
    choose|i: int| 0 <= i < l.len() && l[i] == x
}

/// Whether the index list holds no entry twice.
pub open spec fn distinct(l: Seq<usize>) -> bool {
    forall|i: int, j: int| 0 <= i < j < l.len() ==> l[i] != l[j]
}

/// Whether every entry of the index list is below `bound`.
pub open spec fn all_below(l: Seq<usize>, bound: int) -> bool {
    forall|i: int| 0 <= i < l.len() ==> l[i] < bound
}

/// Every entry of `a` summed with the same entry of `b` fits the scalar
/// range: the condition for `add` to succeed.
pub open spec fn add_fits(a: Seq<Seq<int>>, b: Seq<Seq<int>>, dx: int, dy: int) -> bool {
    forall|i: int, j: int|
        0 <= i < dx && 0 <= j < dy ==> fits_i64(ent(a, i, j) + ent(b, i, j))
}

/// The subtraction analogue of `add_fits`.
pub open spec fn sub_fits(a: Seq<Seq<int>>, b: Seq<Seq<int>>, dx: int, dy: int) -> bool {
    forall|i: int, j: int|
        0 <= i < dx && 0 <= j < dy ==> fits_i64(ent(a, i, j) - ent(b, i, j))
}

/// A dense `dimx` by `dimy` table of fixed-point scalars.
#[derive(Debug)]
pub struct Matrix {
    pub data: Vec<Vec<i64>>,
    pub dimx: usize,
    pub dimy: usize,
}

impl Matrix {
    /// The table's entries as mathematical integers.
    pub open spec fn sv(self) -> Seq<Seq<int>> {
        self.data@.map(|_i: int, row: Vec<i64>| row@.map(|_j: int, v: i64| v as int))
    }

    /// Structural well-formedness: positive dimensions, `dimx` rows of
    /// `dimy` entries each. Every constructor establishes it and every
    /// operation preserves it.
    pub open spec fn wf(self) -> bool {
        &&& self.dimx >= 1
        &&& self.dimy >= 1
        &&& self.data@.len() == self.dimx
        &&& forall|i: int| 0 <= i < self.dimx ==> (#[trigger] self.data@[i])@.len() == self.dimy
    }

    /// The entry at row `i`, column `j`.
    pub open spec fn at(self, i: int, j: int) -> int {
        ent(self.sv(), i, j)
    }

    /// Read one entry.
    pub fn get(&self, i: usize, j: usize) -> (v: i64)
        requires
            self.wf(),
            i < self.dimx,
            j < self.dimy,
        ensures
            v as int == self.at(i as int, j as int),
    {
        self.data[i][j]
    }

    /// A matrix of the given shape filled with zeros.
    pub fn zero(dimx: usize, dimy: usize) -> (r: Result<Matrix, MatrixError>)
        ensures
            r is Ok <==> dimx >= 1 && dimy >= 1,
            r matches Ok(m) ==> m.wf() && m.dimx == dimx && m.dimy == dimy
                && forall|i: int, j: int|
                    0 <= i < dimx && 0 <= j < dimy ==> m.at(i, j) == 0,
            r matches Err(e) ==> e == MatrixError::InvalidDimension,
    {
        if dimx == 0 || dimy == 0 {
            return Err(MatrixError::InvalidDimension);
        }
        let mut data: Vec<Vec<i64>> = Vec::new();
        let mut i: usize = 0;
        while i < dimx
            invariant
                i <= dimx,
                data@.len() == i,
                forall|p: int| 0 <= p < i ==> (#[trigger] data@[p])@.len() == dimy,
                forall|p: int, q: int|
                    0 <= p < i && 0 <= q < dimy ==> #[trigger] data@[p]@[q] == 0i64,
            decreases dimx - i,
        {
            data.push(zero_row(dimy));
            i = i + 1;
        }
        Ok(Matrix { data, dimx, dimy })
    }

    /// The identity: `FX_ONE` (the fixed-point unit) on the diagonal, zero
    /// elsewhere.
    pub fn identity(dim: usize) -> (r: Result<Matrix, MatrixError>)
        ensures
            r is Ok <==> dim >= 1,
            r matches Ok(m) ==> m.wf() && m.dimx == dim && m.dimy == dim
                && forall|i: int, j: int|
                    0 <= i < dim && 0 <= j < dim ==> m.at(i, j) == (
                        if i == j { crate::fixed::FX_ONE as int } else { 0 }
                    ),
            r matches Err(e) ==> e == MatrixError::InvalidDimension,
    {
        if dim == 0 {
            return Err(MatrixError::InvalidDimension);
        }
        let mut data: Vec<Vec<i64>> = Vec::new();
        let mut i: usize = 0;
        while i < dim
            invariant
                i <= dim,
                data@.len() == i,
                forall|p: int| 0 <= p < i ==> (#[trigger] data@[p])@.len() == dim,
                forall|p: int, q: int|
                    0 <= p < i && 0 <= q < dim ==> #[trigger] data@[p]@[q] == (
                        if p == q { crate::fixed::FX_ONE } else { 0i64 }
                    ),
            decreases dim - i,
        {
            let mut row = zero_row(dim);
            row[i] = crate::fixed::FX_ONE;
            data.push(row);
            i = i + 1;
        }
        Ok(Matrix { data, dimx: dim, dimy: dim })
    }

    /// A matrix built from explicit rows. The rows must be non-empty and of
    /// equal length.
    pub fn new(value: Vec<Vec<i64>>) -> (r: Result<Matrix, MatrixError>)
        ensures
            r is Ok <==> value@.len() >= 1 && value@[0]@.len() >= 1
                && (forall|i: int|
                    0 <= i < value@.len() ==> (#[trigger] value@[i])@.len() == value@[0]@.len()),
            r matches Ok(m) ==> m.wf() && m.dimx == value@.len() && m.dimy == value@[0]@.len()
                && forall|i: int, j: int|
                    0 <= i < value@.len() && 0 <= j < value@[0]@.len()
                        ==> m.at(i, j) == (value@[i])@[j],
            r matches Err(e) ==> if value@.len() == 0 || value@[0]@.len() == 0 {
                e == MatrixError::InvalidDimension
            } else {
                e == MatrixError::DimensionMismatch
            },
    {
        if value.len() == 0 {
            return Err(MatrixError::InvalidDimension);
        }
        let dimy = value[0].len();
        if dimy == 0 {
            return Err(MatrixError::InvalidDimension);
        }
        let dimx = value.len();
        let mut i: usize = 0;
        while i < dimx
            invariant
                dimx == value@.len(),
                dimy == value@[0]@.len(),
                dimx >= 1,
                dimy >= 1,
                i <= dimx,
                forall|p: int| 0 <= p < i ==> (#[trigger] value@[p])@.len() == dimy,
            decreases dimx - i,
        {
            if value[i].len() != dimy {
                return Err(MatrixError::DimensionMismatch);
            }
            i = i + 1;
        }
        let ghost gv = value@;
        let m = Matrix { data: value, dimx, dimy };
        proof {
            assert forall|i2: int, j2: int|
                0 <= i2 < dimx && 0 <= j2 < dimy implies m.at(i2, j2) == gv[i2]@[j2] by {
                assert(m.data@[i2]@[j2] == gv[i2]@[j2]);
            }
        }
        Ok(m)
    }

    /// Element-wise sum.
    pub fn add(&self, other: &Matrix) -> (r: Result<Matrix, MatrixError>)
        requires
            self.wf(),
            other.wf(),
        ensures
            r is Ok <==> self.dimx == other.dimx && self.dimy == other.dimy
                && add_fits(self.sv(), other.sv(), self.dimx as int, self.dimy as int),
            r matches Ok(m) ==> m.wf() && m.dimx == self.dimx && m.dimy == self.dimy
                && forall|i: int, j: int|
                    0 <= i < self.dimx && 0 <= j < self.dimy
                        ==> m.at(i, j) == self.at(i, j) + other.at(i, j),
            r matches Err(e) ==> if self.dimx != other.dimx || self.dimy != other.dimy {
                e == MatrixError::DimensionMismatch
            } else {
                e == MatrixError::ValueOutOfRange
            },
    {
        if self.dimx != other.dimx || self.dimy != other.dimy {
            return Err(MatrixError::DimensionMismatch);
        }
        let dimx = self.dimx;
        let dimy = self.dimy;
        let mut data: Vec<Vec<i64>> = Vec::new();
        let mut i: usize = 0;
        while i < dimx
            invariant
                self.wf(),
                other.wf(),
                dimx == self.dimx && dimy == self.dimy,
                dimx == other.dimx && dimy == other.dimy,
                i <= dimx,
                data@.len() == i,
                forall|p: int| 0 <= p < i ==> (#[trigger] data@[p])@.len() == dimy,
                forall|p: int, q: int|
                    0 <= p < i && 0 <= q < dimy
                        ==> fits_i64(#[trigger] ent(self.sv(), p, q) + ent(other.sv(), p, q))
                            && data@[p]@[q] as int == ent(self.sv(), p, q) + ent(other.sv(), p, q),
            decreases dimx - i,
        {
            let mut row: Vec<i64> = Vec::new();
            let mut j: usize = 0;
            while j < dimy
                invariant
                    self.wf(),
                    other.wf(),
                    dimx == self.dimx && dimy == self.dimy,
                    dimx == other.dimx && dimy == other.dimy,
                    i < dimx,
                    j <= dimy,
                    row@.len() == j,
                    forall|q: int|
                        0 <= q < j
                            ==> fits_i64(#[trigger] ent(self.sv(), i as int, q) + ent(other.sv(), i as int, q))
                                && row@[q] as int
                                    == ent(self.sv(), i as int, q) + ent(other.sv(), i as int, q),
                decreases dimy - j,
            {
                let a = self.get(i, j);
                let b = other.get(i, j);
                let v = match fx_add(a, b) {
                    Ok(v) => v,
                    Err(e) => {
                        proof {
                            assert(!fits_i64(
                                ent(self.sv(), i as int, j as int)
                                    + ent(other.sv(), i as int, j as int)));
                        }
                        return Err(e);
                    },
                };
                row.push(v);
                proof {
                    assert(row@[j as int] == v);
                }
                j = j + 1;
            }
            data.push(row);
            proof {
                assert(data@[i as int]@ == row@);
            }
            i = i + 1;
        }
        let m = Matrix { data, dimx, dimy };
        proof {
            assert forall|p: int, q: int|
                0 <= p < dimx && 0 <= q < dimy implies
                m.at(p, q) == ent(self.sv(), p, q) + ent(other.sv(), p, q) by {
                assert(data@[p]@[q] as int == ent(self.sv(), p, q) + ent(other.sv(), p, q));
            }
        }
        Ok(m)
    }

    /// Element-wise difference.
    pub fn sub(&self, other: &Matrix) -> (r: Result<Matrix, MatrixError>)
        requires
            self.wf(),
            other.wf(),
        ensures
            r is Ok <==> self.dimx == other.dimx && self.dimy == other.dimy
                && sub_fits(self.sv(), other.sv(), self.dimx as int, self.dimy as int),
            r matches Ok(m) ==> m.wf() && m.dimx == self.dimx && m.dimy == self.dimy
                && forall|i: int, j: int|
                    0 <= i < self.dimx && 0 <= j < self.dimy
                        ==> m.at(i, j) == self.at(i, j) - other.at(i, j),
            r matches Err(e) ==> if self.dimx != other.dimx || self.dimy != other.dimy {
                e == MatrixError::DimensionMismatch
            } else {
                e == MatrixError::ValueOutOfRange
            },
    {
        if self.dimx != other.dimx || self.dimy != other.dimy {
            return Err(MatrixError::DimensionMismatch);
        }
        let dimx = self.dimx;
        let dimy = self.dimy;
        let mut data: Vec<Vec<i64>> = Vec::new();
        let mut i: usize = 0;
        while i < dimx
            invariant
                self.wf(),
                other.wf(),
                dimx == self.dimx && dimy == self.dimy,
                dimx == other.dimx && dimy == other.dimy,
                i <= dimx,
                data@.len() == i,
                forall|p: int| 0 <= p < i ==> (#[trigger] data@[p])@.len() == dimy,
                forall|p: int, q: int|
                    0 <= p < i && 0 <= q < dimy
                        ==> fits_i64(#[trigger] ent(self.sv(), p, q) - ent(other.sv(), p, q))
                            && data@[p]@[q] as int == ent(self.sv(), p, q) - ent(other.sv(), p, q),
            decreases dimx - i,
        {
            let mut row: Vec<i64> = Vec::new();
            let mut j: usize = 0;
            while j < dimy
                invariant
                    self.wf(),
                    other.wf(),
                    dimx == self.dimx && dimy == self.dimy,
                    dimx == other.dimx && dimy == other.dimy,
                    i < dimx,
                    j <= dimy,
                    row@.len() == j,
                    forall|q: int|
                        0 <= q < j
                            ==> fits_i64(#[trigger] ent(self.sv(), i as int, q) - ent(other.sv(), i as int, q))
                                && row@[q] as int
                                    == ent(self.sv(), i as int, q) - ent(other.sv(), i as int, q),
                decreases dimy - j,
            {
                let a = self.get(i, j);
                let b = other.get(i, j);
                let v = match fx_sub(a, b) {
                    Ok(v) => v,
                    Err(e) => {
                        proof {
                            assert(!fits_i64(
                                ent(self.sv(), i as int, j as int)
                                    - ent(other.sv(), i as int, j as int)));
                        }
                        return Err(e);
                    },
                };
                row.push(v);
                proof {
                    assert(row@[j as int] == v);
                }
                j = j + 1;
            }
            data.push(row);
            proof {
                assert(data@[i as int]@ == row@);
            }
            i = i + 1;
        }
        let m = Matrix { data, dimx, dimy };
        proof {
            assert forall|p: int, q: int|
                0 <= p < dimx && 0 <= q < dimy implies
                m.at(p, q) == ent(self.sv(), p, q) - ent(other.sv(), p, q) by {
                assert(data@[p]@[q] as int == ent(self.sv(), p, q) - ent(other.sv(), p, q));
            }
        }
        Ok(m)
    }

    /// The transpose: a new matrix with swapped dimensions.
    pub fn transpose(&self) -> (r: Matrix)
        requires
            self.wf(),
        ensures
            r.wf(),
            r.dimx == self.dimy,
            r.dimy == self.dimx,
            forall|i: int, j: int|
                0 <= i < self.dimy && 0 <= j < self.dimx ==> r.at(i, j) == self.at(j, i),
    {
        let mut data: Vec<Vec<i64>> = Vec::new();
        let mut i: usize = 0;
        while i < self.dimy
            invariant
                self.wf(),
                i <= self.dimy,
                data@.len() == i,
                forall|p: int| 0 <= p < i ==> (#[trigger] data@[p])@.len() == self.dimx,
                forall|p: int, q: int|
                    0 <= p < i && 0 <= q < self.dimx
                        ==> data@[p]@[q] as int == #[trigger] ent(self.sv(), q, p),
            decreases self.dimy - i,
        {
            let mut row: Vec<i64> = Vec::new();
            let mut j: usize = 0;
            while j < self.dimx
                invariant
                    self.wf(),
                    i < self.dimy,
                    j <= self.dimx,
                    row@.len() == j,
                    forall|q: int|
                        0 <= q < j ==> row@[q] as int == #[trigger] ent(self.sv(), q, i as int),
                decreases self.dimx - j,
            {
                row.push(self.get(j, i));
                proof {
                    assert(row@[j as int] as int == ent(self.sv(), j as int, i as int));
                }
                j = j + 1;
            }
            data.push(row);
            proof {
                assert(data@[i as int]@ == row@);
            }
            i = i + 1;
        }
        let m = Matrix { data, dimx: self.dimy, dimy: self.dimx };
        proof {
            assert forall|p: int, q: int|
                0 <= p < self.dimy && 0 <= q < self.dimx implies
                m.at(p, q) == ent(self.sv(), q, p) by {
                assert(data@[p]@[q] as int == ent(self.sv(), q, p));
            }
        }
        m
    }

    /// The standard matrix product.
    #[verifier::rlimit(60)]
    pub fn mul(&self, other: &Matrix) -> (r: Result<Matrix, MatrixError>)
        requires
            self.wf(),
            other.wf(),
        ensures
            r is Ok <==> self.dimy == other.dimx
                && mul_fits(
                    self.sv(), other.sv(),
                    self.dimx as int, self.dimy as int, other.dimy as int,
                ),
            r matches Ok(m) ==> m.wf() && m.dimx == self.dimx && m.dimy == other.dimy
                && forall|i: int, j: int|
                    0 <= i < self.dimx && 0 <= j < other.dimy
                        ==> m.at(i, j) == mul_dot(self.sv(), other.sv(), i, j, self.dimy as int),
            r matches Err(e) ==> if self.dimy != other.dimx {
                e == MatrixError::DimensionMismatch
            } else {
                e == MatrixError::ValueOutOfRange
            },
    {
        if self.dimy != other.dimx {
            return Err(MatrixError::DimensionMismatch);
        }
        let dimx = self.dimx;
        let dimy = other.dimy;
        let dk = self.dimy;
        let mut data: Vec<Vec<i64>> = Vec::new();
        let mut i: usize = 0;
        while i < dimx
            invariant
                self.wf(),
                other.wf(),
                dimx == self.dimx && dimy == other.dimy && dk == self.dimy,
                dk == other.dimx,
                i <= dimx,
                data@.len() == i,
                forall|p: int| 0 <= p < i ==> (#[trigger] data@[p])@.len() == dimy,
                forall|p: int, q: int|
                    0 <= p < i && 0 <= q < dimy
                        ==> #[trigger] mul_dot_ok(self.sv(), other.sv(), p, q, dk as int)
                            && data@[p]@[q] as int
                                == mul_dot(self.sv(), other.sv(), p, q, dk as int),
            decreases dimx - i,
        {
            let mut row: Vec<i64> = Vec::new();
            let mut j: usize = 0;
            while j < dimy
                invariant
                    self.wf(),
                    other.wf(),
                    dimx == self.dimx && dimy == other.dimy && dk == self.dimy,
                    dk == other.dimx,
                    i < dimx,
                    j <= dimy,
                    row@.len() == j,
                    forall|q: int|
                        0 <= q < j
                            ==> #[trigger] mul_dot_ok(self.sv(), other.sv(), i as int, q, dk as int)
                                && row@[q] as int
                                    == mul_dot(self.sv(), other.sv(), i as int, q, dk as int),
                decreases dimy - j,
            {
                let mut acc: i64 = 0;
                let mut k: usize = 0;
                while k < dk
                    invariant
                        self.wf(),
                        other.wf(),
                        dimx == self.dimx && dimy == other.dimy && dk == self.dimy,
                        dk == other.dimx,
                        i < dimx,
                        j < dimy,
                        k <= dk,
                        mul_dot_ok(self.sv(), other.sv(), i as int, j as int, k as int),
                        acc as int == mul_dot(self.sv(), other.sv(), i as int, j as int, k as int),
                    decreases dk - k,
                {
                    let t = match fx_mul(self.get(i, k), other.get(k, j)) {
                        Ok(t) => t,
                        Err(_) => {
                            proof {
                                lemma_mul_dot_ok_prefix(
                                    self.sv(), other.sv(), i as int, j as int,
                                    k as int + 1, dk as int,
                                );
                            }
                            return Err(MatrixError::ValueOutOfRange);
                        },
                    };
                    let sum = match fx_add(acc, t) {
                        Ok(v) => v,
                        Err(_) => {
                            proof {
                                lemma_mul_dot_ok_prefix(
                                    self.sv(), other.sv(), i as int, j as int,
                                    k as int + 1, dk as int,
                                );
                            }
                            return Err(MatrixError::ValueOutOfRange);
                        },
                    };
                    acc = sum;
                    k = k + 1;
                }
                row.push(acc);
                proof {
                    assert(row@[j as int] == acc);
                }
                j = j + 1;
            }
            proof {
                assert(j == dimy);
                assert forall|q: int| 0 <= q < dimy implies
                    #[trigger] mul_dot_ok(self.sv(), other.sv(), i as int, q, dk as int)
                        && row@[q] as int
                            == mul_dot(self.sv(), other.sv(), i as int, q, dk as int) by {}
            }
            data.push(row);
            proof {
                assert(data@[i as int]@ == row@);
                assert forall|p: int, q: int|
                    0 <= p < i + 1 && 0 <= q < dimy implies
                    #[trigger] mul_dot_ok(self.sv(), other.sv(), p, q, dk as int)
                        && data@[p]@[q] as int
                            == mul_dot(self.sv(), other.sv(), p, q, dk as int) by {
                    if p == i as int {
                        assert(data@[p]@[q] == row@[q]);
                        assert(mul_dot_ok(self.sv(), other.sv(), i as int, q, dk as int));
                        assert(row@[q] as int
                            == mul_dot(self.sv(), other.sv(), i as int, q, dk as int));
                    }
                }
            }
            i = i + 1;
        }
        let m = Matrix { data, dimx, dimy };
        proof {
            assert forall|p: int, q: int|
                0 <= p < dimx && 0 <= q < dimy implies
                #[trigger] m.at(p, q) == mul_dot(self.sv(), other.sv(), p, q, dk as int) by {
                assert(mul_dot_ok(self.sv(), other.sv(), p, q, dk as int));
                assert(data@[p]@[q] as int == mul_dot(self.sv(), other.sv(), p, q, dk as int));
            }
            assert forall|p: int, q: int|
                0 <= p < dimx && 0 <= q < dimy implies
                #[trigger] mul_dot_ok(self.sv(), other.sv(), p, q, dk as int) by {}
            assert(mul_fits(
                self.sv(), other.sv(), self.dimx as int, self.dimy as int, other.dimy as int,
            ));
        }
        Ok(m)
    }

    /// The submatrix at the cartesian product of the given index lists,
    /// order preserved. An empty `list2` defaults to `list1` (symmetric
    /// extraction). Fails with `IndexOutOfRange` if any index exceeds the
    /// source's dimensions, and with `InvalidDimension` if `list1` is empty.
    pub fn take(&self, list1: &Vec<usize>, list2: &Vec<usize>) -> (r: Result<Matrix, MatrixError>)
        requires
            self.wf(),
        ensures
            r is Ok <==> list1@.len() >= 1 && all_below(list1@, self.dimx as int)
                && all_below(take_cols(list1@, list2@), self.dimy as int),
            r matches Ok(m) ==> m.wf() && m.dimx == list1@.len()
                && m.dimy == take_cols(list1@, list2@).len()
                && forall|i: int, j: int|
                    0 <= i < list1@.len() && 0 <= j < take_cols(list1@, list2@).len()
                        ==> m.at(i, j) == ent(
                            self.sv(),
                            list1@[i] as int,
                            take_cols(list1@, list2@)[j] as int,
                        ),
            r matches Err(e) ==> if list1@.len() == 0 {
                e == MatrixError::InvalidDimension
            } else {
                e == MatrixError::IndexOutOfRange
            },
    {
        if list1.len() == 0 {
            return Err(MatrixError::InvalidDimension);
        }
        let cols: &Vec<usize> = if list2.len() == 0 { list1 } else { list2 };
        let mut k: usize = 0;
        while k < list1.len()
            invariant
                list1@.len() >= 1,
                k <= list1@.len(),
                forall|p: int| 0 <= p < k ==> (#[trigger] list1@[p]) < self.dimx,
            decreases list1@.len() - k,
        {
            if list1[k] >= self.dimx {
                return Err(MatrixError::IndexOutOfRange);
            }
            k = k + 1;
        }
        let mut k: usize = 0;
        while k < cols.len()
            invariant
                list1@.len() >= 1,
                cols@ == take_cols(list1@, list2@),
                all_below(list1@, self.dimx as int),
                k <= cols@.len(),
                forall|p: int| 0 <= p < k ==> (#[trigger] cols@[p]) < self.dimy,
            decreases cols@.len() - k,
        {
            if cols[k] >= self.dimy {
                return Err(MatrixError::IndexOutOfRange);
            }
            k = k + 1;
        }
        let dimx = list1.len();
        let dimy = cols.len();
        let mut data: Vec<Vec<i64>> = Vec::new();
        let mut i: usize = 0;
        while i < dimx
            invariant
                self.wf(),
                dimx == list1@.len(),
                dimy == cols@.len(),
                all_below(list1@, self.dimx as int),
                all_below(cols@, self.dimy as int),
                i <= dimx,
                data@.len() == i,
                forall|p: int| 0 <= p < i ==> (#[trigger] data@[p])@.len() == dimy,
                forall|p: int, q: int|
                    0 <= p < i && 0 <= q < dimy
                        ==> data@[p]@[q] as int
                            == #[trigger] ent(self.sv(), list1@[p] as int, cols@[q] as int),
            decreases dimx - i,
        {
            let mut row: Vec<i64> = Vec::new();
            let mut j: usize = 0;
            while j < dimy
                invariant
                    self.wf(),
                    dimx == list1@.len(),
                    dimy == cols@.len(),
                    all_below(list1@, self.dimx as int),
                    all_below(cols@, self.dimy as int),
                    i < dimx,
                    j <= dimy,
                    row@.len() == j,
                    forall|q: int|
                        0 <= q < j
                            ==> row@[q] as int
                                == #[trigger] ent(self.sv(), list1@[i as int] as int, cols@[q] as int),
                decreases dimy - j,
            {
                row.push(self.get(list1[i], cols[j]));
                proof {
                    assert(row@[j as int] as int
                        == ent(self.sv(), list1@[i as int] as int, cols@[j as int] as int));
                }
                j = j + 1;
            }
            data.push(row);
            proof {
                assert(data@[i as int]@ == row@);
            }
            i = i + 1;
        }
        let m = Matrix { data, dimx, dimy };
        proof {
            assert forall|p: int, q: int|
                0 <= p < dimx && 0 <= q < dimy implies
                m.at(p, q) == ent(self.sv(), list1@[p] as int, cols@[q] as int) by {
                assert(data@[p]@[q] as int == ent(self.sv(), list1@[p] as int, cols@[q] as int));
            }
        }
        Ok(m)
    }

    /// A zero matrix of the requested larger size with this matrix's entries
    /// scattered to the destination positions `(rowMap[i], colMap[j])`. The
    /// maps must cover the source (`DimensionMismatch` otherwise), stay
    /// inside the destination (`IndexOutOfRange` otherwise), and repeat no
    /// destination (`InvalidDimension` otherwise, as for a zero dimension).
    pub fn expand(&self, dimx: usize, dimy: usize, v1: &Vec<usize>, v2: &Vec<usize>) -> (r:
        Result<Matrix, MatrixError>)
        requires
            self.wf(),
        ensures
            r is Ok <==> dimx >= 1 && dimy >= 1 && v1@.len() == self.dimx
                && v2@.len() == self.dimy && all_below(v1@, dimx as int)
                && all_below(v2@, dimy as int) && distinct(v1@) && distinct(v2@),
            r matches Ok(m) ==> m.wf() && m.dimx == dimx && m.dimy == dimy
                && (forall|p: int, q: int|
                    0 <= p < dimx && 0 <= q < dimy
                        ==> #[trigger] m.at(p, q) == expand_cell(self.sv(), v1@, v2@, p, q))
                && (forall|i: int, j: int|
                    0 <= i < self.dimx && 0 <= j < self.dimy
                        ==> m.at(v1@[i] as int, v2@[j] as int) == #[trigger] ent(self.sv(), i, j)),
            r matches Err(e) ==> if dimx == 0 || dimy == 0 {
                e == MatrixError::InvalidDimension
            } else if v1@.len() != self.dimx || v2@.len() != self.dimy {
                e == MatrixError::DimensionMismatch
            } else if !(all_below(v1@, dimx as int) && all_below(v2@, dimy as int)) {
                e == MatrixError::IndexOutOfRange
            } else {
                e == MatrixError::InvalidDimension
            },
    {
        if dimx == 0 || dimy == 0 {
            return Err(MatrixError::InvalidDimension);
        }
        if v1.len() != self.dimx || v2.len() != self.dimy {
            return Err(MatrixError::DimensionMismatch);
        }
        if !(all_below_exec(v1, dimx) && all_below_exec(v2, dimy)) {
            return Err(MatrixError::IndexOutOfRange);
        }
        if !(distinct_exec(v1) && distinct_exec(v2)) {
            return Err(MatrixError::InvalidDimension);
        }
        let mut data: Vec<Vec<i64>> = Vec::new();
        let mut p: usize = 0;
        while p < dimx
            invariant
                self.wf(),
                v1@.len() == self.dimx,
                v2@.len() == self.dimy,
                distinct(v1@),
                distinct(v2@),
                p <= dimx,
                data@.len() == p,
                forall|t: int| 0 <= t < p ==> (#[trigger] data@[t])@.len() == dimy,
                forall|t: int, u: int|
                    0 <= t < p && 0 <= u < dimy
                        ==> data@[t]@[u] as int == #[trigger] expand_cell(self.sv(), v1@, v2@, t, u),
            decreases dimx - p,
        {
            let mut row: Vec<i64> = Vec::new();
            let mut q: usize = 0;
            let src_row = find_in(v1, p);
            while q < dimy
                invariant
                    self.wf(),
                    v1@.len() == self.dimx,
                    v2@.len() == self.dimy,
                    distinct(v1@),
                    distinct(v2@),
                    p < dimx,
                    q <= dimy,
                    row@.len() == q,
                    src_row matches Some(i) ==> i < v1@.len() && v1@[i as int] == p,
                    src_row is None ==> !in_list(v1@, p as int),
                    forall|u: int|
                        0 <= u < q
                            ==> row@[u] as int
                                == #[trigger] expand_cell(self.sv(), v1@, v2@, p as int, u),
                decreases dimy - q,
            {
                let v: i64 = match src_row {
                    Some(i) => {
                        match find_in(v2, q) {
                            Some(j) => {
                                proof {
                                    lemma_idx_in(v1@, i as int);
                                    lemma_idx_in(v2@, j as int);
                                }
                                self.get(i, j)
                            },
                            None => 0i64,
                        }
                    },
                    None => 0i64,
                };
                row.push(v);
                proof {
                    assert(row@[q as int] as int
                        == expand_cell(self.sv(), v1@, v2@, p as int, q as int));
                }
                q = q + 1;
            }
            data.push(row);
            proof {
                assert(data@[p as int]@ == row@);
            }
            p = p + 1;
        }
        let m = Matrix { data, dimx, dimy };
        proof {
            assert forall|t: int, u: int|
                0 <= t < dimx && 0 <= u < dimy implies
                #[trigger] m.at(t, u) == expand_cell(self.sv(), v1@, v2@, t, u) by {
                assert(data@[t]@[u] as int == expand_cell(self.sv(), v1@, v2@, t, u));
            }
            assert forall|i: int, j: int|
                0 <= i < self.dimx && 0 <= j < self.dimy implies
                m.at(v1@[i] as int, v2@[j] as int) == #[trigger] ent(self.sv(), i, j) by {
                lemma_idx_in(v1@, i);
                lemma_idx_in(v2@, j);
                assert(in_list(v1@, v1@[i] as int));
                assert(in_list(v2@, v2@[j] as int));
            }
        }
        Ok(m)
    }
}

/// The entry of the matrix that `expand` produces: the source entry whose
/// destination the index maps name, zero where no source entry lands.
pub open spec fn expand_cell(src: Seq<Seq<int>>, v1: Seq<usize>, v2: Seq<usize>, p: int, q: int)
    -> int {
    if in_list(v1, p) && in_list(v2, q) {
        ent(src, idx_in(v1, p), idx_in(v2, q))
    } else {
        0
    }
}

/// The column list that `take` uses: `list2`, or `list1` where `list2` is
/// empty.
pub open spec fn take_cols(l1: Seq<usize>, l2: Seq<usize>) -> Seq<usize> {
    if l2.len() == 0 { l1 } else { l2 }
}

/// In a distinct list, the chosen position of the value at `i` is `i` itself.
pub proof fn lemma_idx_in(l: Seq<usize>, i: int)
    requires
        distinct(l),
        0 <= i < l.len(),
    ensures
        in_list(l, l[i] as int),
        idx_in(l, l[i] as int) == i,
{
    assert(in_list(l, l[i] as int));
    let k = idx_in(l, l[i] as int);
    assert(0 <= k < l.len() && l[k] == l[i]);
    if k < i {
        assert(false);
    } else if i < k {
        assert(false);
    }
}

/// Linear search in an index list.
fn find_in(l: &Vec<usize>, x: usize) -> (r: Option<usize>)
    ensures
        r matches Some(i) ==> i < l@.len() && l@[i as int] == x,
        r is None ==> !in_list(l@, x as int),
{
    let mut k: usize = 0;
    while k < l.len()
        invariant
            k <= l@.len(),
            forall|p: int| 0 <= p < k ==> (#[trigger] l@[p]) != x,
        decreases l@.len() - k,
    {
        if l[k] == x {
            return Some(k);
        }
        k = k + 1;
    }
    None
}

/// Whether every entry of the list is below the bound, checked.
fn all_below_exec(l: &Vec<usize>, bound: usize) -> (r: bool)
    ensures
        r == all_below(l@, bound as int),
{
    let mut k: usize = 0;
    while k < l.len()
        invariant
            k <= l@.len(),
            forall|p: int| 0 <= p < k ==> (#[trigger] l@[p]) < bound,
        decreases l@.len() - k,
    {
        if l[k] >= bound {
            return false;
        }
        k = k + 1;
    }
    true
}

/// Whether the list holds no entry twice, checked.
fn distinct_exec(l: &Vec<usize>) -> (r: bool)
    ensures
        r == distinct(l@),
{
    let mut i: usize = 0;
    while i < l.len()
        invariant
            i <= l@.len(),
            forall|p: int, q: int| 0 <= p < q < l@.len() && p < i ==> l@[p] != l@[q],
        decreases l@.len() - i,
    {
        let mut j: usize = i + 1;
        while j < l.len()
            invariant
                i < l@.len(),
                i < j,
                j <= l@.len(),
                forall|q: int| i < q < j ==> l@[i as int] != #[trigger] l@[q],
            decreases l@.len() - j,
        {
            if l[i] == l[j] {
                return false;
            }
            j = j + 1;
        }
        i = i + 1;
    }
    true
}

/// The sum of the first `k` products in the dot product of row `i` of `a`
/// and column `j` of `b`, each product rescaled as `fx_mul_v` does.
pub open spec fn mul_dot(a: Seq<Seq<int>>, b: Seq<Seq<int>>, i: int, j: int, k: int) -> int
    decreases k,
{
    if k <= 0 {
        0
    } else {
        mul_dot(a, b, i, j, k - 1) + fx_mul_v(ent(a, i, k - 1), ent(b, k - 1, j))
    }
}

/// Every product and every partial sum of `mul_dot` fits the scalar range:
/// the condition for `mul` to compute that entry.
pub open spec fn mul_dot_ok(a: Seq<Seq<int>>, b: Seq<Seq<int>>, i: int, j: int, k: int) -> bool
    decreases k,
{
    if k <= 0 {
        true
    } else {
        mul_dot_ok(a, b, i, j, k - 1)
            && fits_i64(fx_mul_v(ent(a, i, k - 1), ent(b, k - 1, j)))
            && fits_i64(mul_dot(a, b, i, j, k))
    }
}

/// Every entry of the product of `a` (shape `dx` by `dk`) and `b` (shape
/// `dk` by `dy`) can be computed.
pub open spec fn mul_fits(a: Seq<Seq<int>>, b: Seq<Seq<int>>, dx: int, dk: int, dy: int) -> bool {
    forall|i: int, j: int|
        0 <= i < dx && 0 <= j < dy ==> #[trigger] mul_dot_ok(a, b, i, j, dk)
}

/// Taking a submatrix and scattering it back with the same index maps
/// round-trips it: the expanded matrix holds the original entry at every
/// position the maps name, and zero at every other position.
pub proof fn lemma_take_expand_round_trip(
    m: Matrix,
    t: Matrix,
    e: Matrix,
    rows: Seq<usize>,
    cols: Seq<usize>,
)
    requires
        m.wf(),
        distinct(rows),
        distinct(cols),
        rows.len() >= 1,
        cols.len() >= 1,
        t.dimx == rows.len(),
        t.dimy == cols.len(),
        forall|i: int, j: int|
            0 <= i < rows.len() && 0 <= j < cols.len()
                ==> #[trigger] t.at(i, j) == ent(m.sv(), rows[i] as int, cols[j] as int),
        e.dimx == m.dimx,
        e.dimy == m.dimy,
        forall|p: int, q: int|
            0 <= p < e.dimx && 0 <= q < e.dimy
                ==> #[trigger] e.at(p, q) == expand_cell(t.sv(), rows, cols, p, q),
        forall|i: int, j: int|
            0 <= i < t.dimx && 0 <= j < t.dimy
                ==> e.at(rows[i] as int, cols[j] as int) == #[trigger] ent(t.sv(), i, j),
    ensures
        forall|i: int, j: int|
            0 <= i < rows.len() && 0 <= j < cols.len()
                ==> e.at(rows[i] as int, cols[j] as int)
                    == #[trigger] ent(m.sv(), rows[i] as int, cols[j] as int),
        forall|p: int, q: int|
            0 <= p < m.dimx && 0 <= q < m.dimy && !(in_list(rows, p) && in_list(cols, q))
                ==> #[trigger] e.at(p, q) == 0,
{
    assert forall|i: int, j: int|
        0 <= i < rows.len() && 0 <= j < cols.len() implies
        e.at(rows[i] as int, cols[j] as int)
            == #[trigger] ent(m.sv(), rows[i] as int, cols[j] as int) by {
        assert(e.at(rows[i] as int, cols[j] as int) == ent(t.sv(), i, j));
        assert(ent(t.sv(), i, j) == t.at(i, j));
    }
}

/// `mul_dot_ok` is closed under shortening the sum.
pub proof fn lemma_mul_dot_ok_prefix(a: Seq<Seq<int>>, b: Seq<Seq<int>>, i: int, j: int, k: int, k2: int)
    requires
        0 <= k <= k2,
    ensures
        mul_dot_ok(a, b, i, j, k2) ==> mul_dot_ok(a, b, i, j, k),
    decreases k2,
{
    if k < k2 && mul_dot_ok(a, b, i, j, k2) {
        lemma_mul_dot_ok_prefix(a, b, i, j, k, k2 - 1);
    }
}

/// A row of `len` zero scalars.
fn zero_row(len: usize) -> (v: Vec<i64>)
    ensures
        v@.len() == len,
        forall|k: int| 0 <= k < len ==> v@[k] == 0i64,
{
    let mut v: Vec<i64> = Vec::new();
    while v.len() < len
        invariant
            v@.len() <= len,
            forall|k: int| 0 <= k < v@.len() ==> v@[k] == 0i64,
        decreases len - v@.len(),
    {
        v.push(0i64);
    }
    v
}

/// The entries of an executable row as mathematical integers.
pub open spec fn iv(s: Seq<i64>) -> Seq<int> {
    s.map(|_k: int, x: i64| x as int)
}

/// The sum over `k` in `[lo, hi)` of the rescaled products `u[k] * v[k]`.
pub open spec fn dot_range(u: Seq<int>, v: Seq<int>, lo: int, hi: int) -> int
    decreases hi - lo,
{
    if hi <= lo {
        0
    } else {
        dot_range(u, v, lo, hi - 1) + fx_mul_v(u[hi - 1], v[hi - 1])
    }
}

/// Every product and every partial sum of `dot_range` fits the scalar range.
pub open spec fn dot_range_ok(u: Seq<int>, v: Seq<int>, lo: int, hi: int) -> bool
    decreases hi - lo,
{
    if hi <= lo {
        true
    } else {
        dot_range_ok(u, v, lo, hi - 1)
            && fits_i64(fx_mul_v(u[hi - 1], v[hi - 1]))
            && fits_i64(dot_range(u, v, lo, hi))
    }
}

/// `dot_range_ok` is closed under shortening the range.
pub proof fn lemma_dot_range_ok_prefix(u: Seq<int>, v: Seq<int>, lo: int, h: int, hi: int)
    requires
        lo <= h <= hi,
    ensures
        dot_range_ok(u, v, lo, hi) ==> dot_range_ok(u, v, lo, h),
    decreases hi - lo,
{
    if h < hi && dot_range_ok(u, v, lo, hi) {
        lemma_dot_range_ok_prefix(u, v, lo, h, hi - 1);
    }
}

/// A partial dot product of two scalar rows, over `k` in `[lo, hi)`, with
/// every step checked.
fn dot_range_exec(u: &Vec<i64>, v: &Vec<i64>, lo: usize, hi: usize) -> (r: Result<
    i64,
    MatrixError,
>)
    requires
        lo <= hi,
        hi <= u@.len(),
        hi <= v@.len(),
    ensures
        r matches Ok(sv) ==> dot_range_ok(iv(u@), iv(v@), lo as int, hi as int)
            && sv as int == dot_range(iv(u@), iv(v@), lo as int, hi as int),
        r matches Err(e) ==> !dot_range_ok(iv(u@), iv(v@), lo as int, hi as int)
            && e == MatrixError::ValueOutOfRange,
{
    let mut acc: i64 = 0;
    let mut k: usize = lo;
    while k < hi
        invariant
            lo <= k <= hi,
            hi <= u@.len(),
            hi <= v@.len(),
            dot_range_ok(iv(u@), iv(v@), lo as int, k as int),
            acc as int == dot_range(iv(u@), iv(v@), lo as int, k as int),
        decreases hi - k,
    {
        let t = match fx_mul(u[k], v[k]) {
            Ok(t) => t,
            Err(_) => {
                proof {
                    lemma_dot_range_ok_prefix(iv(u@), iv(v@), lo as int, k as int + 1, hi as int);
                }
                return Err(MatrixError::ValueOutOfRange);
            },
        };
        let sum = match fx_add(acc, t) {
            Ok(sv) => sv,
            Err(_) => {
                proof {
                    lemma_dot_range_ok_prefix(iv(u@), iv(v@), lo as int, k as int + 1, hi as int);
                }
                return Err(MatrixError::ValueOutOfRange);
            },
        };
        acc = sum;
        k = k + 1;
    }
    Ok(acc)
}

/// Write one entry of a table in place, leaving every other row untouched.
fn set_entry(data: &mut Vec<Vec<i64>>, r: usize, c: usize, v: i64)
    requires
        r < old(data)@.len(),
        c < old(data)@[r as int]@.len(),
    ensures
        final(data)@.len() == old(data)@.len(),
        final(data)@[r as int]@ == old(data)@[r as int]@.update(c as int, v),
        forall|p: int| 0 <= p < final(data)@.len() && p != r ==> final(data)@[p] == old(data)@[p],
{
    data[r][c] = v;
}

/// The Cholesky dot product: the sum of the first `k` rescaled products of
/// the factor's rows `p` and `q`.
pub open spec fn chol_dot(a: Seq<Seq<int>>, n: int, ztol: int, p: int, q: int, k: int) -> int
    decreases k, 0int, 0int,
{
    if k <= 0 {
        0
    } else {
        chol_dot(a, n, ztol, p, q, k - 1)
            + fx_mul_v(chol_entry(a, n, ztol, p, k - 1), chol_entry(a, n, ztol, q, k - 1))
    }
}

/// The off-diagonal Cholesky cross sum with the tolerance applied: a sum
/// whose magnitude falls below `ztol` is treated as exactly zero.
pub open spec fn chol_szero(a: Seq<Seq<int>>, n: int, ztol: int, r: int, c: int) -> int
    decreases c, 0int, 1int,
{
    let s0 = chol_dot(a, n, ztol, c, r, c);
    if abs_i(s0) < ztol { 0 } else { s0 }
}

/// The entry at row `r`, column `c` of the lower-triangular Cholesky factor
/// of `a` (an `n` by `n` table), with tolerance `ztol`.
///
/// The diagonal is the square root of the diagonal residual, or zero when
/// the residual's magnitude falls below the tolerance; entries below the
/// diagonal are the residual divided by the column's diagonal, or zero when
/// that diagonal is zero (a rank-deficient direction); entries above the
/// diagonal are zero. A residual at or below `-ztol` makes the factorization
/// fail; this function then gives the entry as zero, and `chol_pd` is false.
pub open spec fn chol_entry(a: Seq<Seq<int>>, n: int, ztol: int, r: int, c: int) -> int
    decreases c, 1int, (if r >= c { r - c } else { 0int }),
{
    if c < 0 || r < c || r >= n {
        0
    } else if r == c {
        let d = ent(a, c, c) - chol_dot(a, n, ztol, c, c, c);
        if abs_i(d) < ztol {
            0
        } else if d < 0 {
            0
        } else {
            fx_sqrt_v(d)
        }
    } else {
        let diag = chol_entry(a, n, ztol, c, c);
        if diag == 0 {
            0
        } else {
            fx_div_v(ent(a, c, r) - chol_szero(a, n, ztol, r, c), diag)
        }
    }
}

/// The diagonal residual at column `c` is not negative beyond the tolerance.
pub open spec fn chol_pd_at(a: Seq<Seq<int>>, n: int, ztol: int, c: int) -> bool {
    let d = ent(a, c, c) - chol_dot(a, n, ztol, c, c, c);
    d >= 0 || abs_i(d) < ztol
}

/// `a` is positive-(semi)definite as far as the factorization checks it: no
/// diagonal residual is negative beyond the tolerance.
pub open spec fn chol_pd(a: Seq<Seq<int>>, n: int, ztol: int) -> bool {
    forall|c: int| 0 <= c < n ==> #[trigger] chol_pd_at(a, n, ztol, c)
}

/// Every product and partial sum of `chol_dot` fits the scalar range.
pub open spec fn chol_dot_ok(a: Seq<Seq<int>>, n: int, ztol: int, p: int, q: int, k: int) -> bool
    decreases k,
{
    if k <= 0 {
        true
    } else {
        chol_dot_ok(a, n, ztol, p, q, k - 1)
            && fits_i64(fx_mul_v(chol_entry(a, n, ztol, p, k - 1), chol_entry(a, n, ztol, q, k - 1)))
            && fits_i64(chol_dot(a, n, ztol, p, q, k))
    }
}

/// Every intermediate value in computing the factor's entry `(r, c)` fits
/// the scalar range.
pub open spec fn chol_entry_ok(a: Seq<Seq<int>>, n: int, ztol: int, r: int, c: int) -> bool {
    if r == c {
        chol_dot_ok(a, n, ztol, c, c, c)
            && fits_i64(ent(a, c, c) - chol_dot(a, n, ztol, c, c, c))
    } else {
        chol_dot_ok(a, n, ztol, c, r, c)
            && fits_i64(ent(a, c, r) - chol_szero(a, n, ztol, r, c))
            && (chol_entry(a, n, ztol, c, c) == 0
                || fits_i64(fx_div_v(
                    ent(a, c, r) - chol_szero(a, n, ztol, r, c),
                    chol_entry(a, n, ztol, c, c),
                )))
    }
}

/// Every entry of the factor of the `n` by `n` table `a` can be computed.
pub open spec fn chol_all_ok(a: Seq<Seq<int>>, n: int, ztol: int) -> bool {
    forall|r: int, c: int| 0 <= c <= r < n ==> #[trigger] chol_entry_ok(a, n, ztol, r, c)
}

/// Rows that materialize the factor's entries give `chol_dot` as their
/// `dot_range`.
pub proof fn lemma_chol_dot_eq(
    a: Seq<Seq<int>>, n: int, ztol: int, p: int, q: int, u: Seq<int>, v: Seq<int>, c: int,
)
    requires
        0 <= c,
        c <= u.len(),
        c <= v.len(),
        forall|k: int| 0 <= k < c ==> #[trigger] u[k] == chol_entry(a, n, ztol, p, k),
        forall|k: int| 0 <= k < c ==> #[trigger] v[k] == chol_entry(a, n, ztol, q, k),
    ensures
        dot_range(u, v, 0, c) == chol_dot(a, n, ztol, p, q, c),
        dot_range_ok(u, v, 0, c) == chol_dot_ok(a, n, ztol, p, q, c),
    decreases c,
{
    if c > 0 {
        lemma_chol_dot_eq(a, n, ztol, p, q, u, v, c - 1);
    }
}

impl Matrix {
    /// The lower-triangular Cholesky factor `L` with `L·Lᵀ = self`, for a
    /// symmetric positive-semidefinite input.
    ///
    /// A diagonal residual whose magnitude falls below `ztol` is treated as
    /// exactly zero, and the entries that would divide by that zero diagonal
    /// are zero too (a rank-deficient direction). A residual negative beyond
    /// the tolerance fails with `NotPositiveDefinite`; a value outside the
    /// scalar range fails with `ValueOutOfRange`; a non-square input fails
    /// with `DimensionMismatch`.
    pub fn cholesky(&self, ztol: i64) -> (r: Result<Matrix, MatrixError>)
        requires
            self.wf(),
        ensures
            r is Ok <==> self.dimx == self.dimy
                && chol_pd(self.sv(), self.dimx as int, ztol as int)
                && chol_all_ok(self.sv(), self.dimx as int, ztol as int),
            r matches Ok(m) ==> m.wf() && m.dimx == self.dimx && m.dimy == self.dimx
                && forall|p: int, q: int|
                    0 <= p < self.dimx && 0 <= q < self.dimx
                        ==> #[trigger] m.at(p, q)
                            == chol_entry(self.sv(), self.dimx as int, ztol as int, p, q),
            r matches Err(e) ==> if self.dimx != self.dimy {
                e == MatrixError::DimensionMismatch
            } else if !chol_pd(self.sv(), self.dimx as int, ztol as int)
                && chol_all_ok(self.sv(), self.dimx as int, ztol as int) {
                e == MatrixError::NotPositiveDefinite
            } else if chol_pd(self.sv(), self.dimx as int, ztol as int)
                && !chol_all_ok(self.sv(), self.dimx as int, ztol as int) {
                e == MatrixError::ValueOutOfRange
            } else {
                e == MatrixError::NotPositiveDefinite || e == MatrixError::ValueOutOfRange
            },
    {
        if self.dimx != self.dimy {
            return Err(MatrixError::DimensionMismatch);
        }
        let n = self.dimx;
        let ghost aa = self.sv();
        let ghost na = n as int;
        let ghost zt = ztol as int;
        let mut data: Vec<Vec<i64>> = Vec::new();
        let mut z: usize = 0;
        while z < n
            invariant
                z <= n,
                data@.len() == z,
                forall|p: int| 0 <= p < z ==> (#[trigger] data@[p])@.len() == n,
                forall|p: int, q: int| 0 <= p < z && 0 <= q < n ==> (#[trigger] data@[p]@[q]) == 0i64,
            decreases n - z,
        {
            data.push(zero_row(n));
            z = z + 1;
        }
        let mut c: usize = 0;
        while c < n
            invariant
                self.wf(),
                n == self.dimx && n == self.dimy,
                aa == self.sv() && na == n as int && zt == ztol as int,
                c <= n,
                data@.len() == n,
                forall|p: int| 0 <= p < n ==> (#[trigger] data@[p])@.len() == n,
                forall|rr: int, cc: int|
                    0 <= rr < n && 0 <= cc < c
                        ==> (#[trigger] data@[rr]@[cc]) as int == chol_entry(aa, na, zt, rr, cc),
                forall|rr: int, cc: int|
                    0 <= rr < n && c <= cc < n ==> (#[trigger] data@[rr]@[cc]) == 0i64,
                forall|cc: int| 0 <= cc < c ==> #[trigger] chol_pd_at(aa, na, zt, cc),
                forall|rr: int, cc: int|
                    0 <= cc <= rr < n && cc < c ==> #[trigger] chol_entry_ok(aa, na, zt, rr, cc),
            decreases n - c,
        {
            proof {
                assert forall|k: int| 0 <= k < c implies
                    #[trigger] iv(data@[c as int]@)[k] == chol_entry(aa, na, zt, c as int, k) by {
                    assert(data@[c as int]@[k] as int == chol_entry(aa, na, zt, c as int, k));
                }
            }
            let s = match dot_range_exec(&data[c], &data[c], 0, c) {
                Ok(s) => s,
                Err(_) => {
                    proof {
                        lemma_chol_dot_eq(
                            aa, na, zt, c as int, c as int,
                            iv(data@[c as int]@), iv(data@[c as int]@), c as int,
                        );
                        assert(!chol_entry_ok(aa, na, zt, c as int, c as int));
                    }
                    return Err(MatrixError::ValueOutOfRange);
                },
            };
            proof {
                lemma_chol_dot_eq(
                    aa, na, zt, c as int, c as int,
                    iv(data@[c as int]@), iv(data@[c as int]@), c as int,
                );
                assert(s as int == chol_dot(aa, na, zt, c as int, c as int, c as int));
            }
            let d = match fx_sub(self.get(c, c), s) {
                Ok(d) => d,
                Err(_) => {
                    proof {
                        assert(!chol_entry_ok(aa, na, zt, c as int, c as int));
                    }
                    return Err(MatrixError::ValueOutOfRange);
                },
            };
            let diag: i64 = if (d as i128) < (ztol as i128) && -(ztol as i128) < (d as i128) {
                0i64
            } else if d < 0 {
                proof {
                    assert(!chol_pd_at(aa, na, zt, c as int));
                    assert(!chol_pd(aa, na, zt));
                }
                return Err(MatrixError::NotPositiveDefinite);
            } else {
                fx_sqrt(d)
            };
            proof {
                assert(diag as int == chol_entry(aa, na, zt, c as int, c as int));
                assert(chol_pd_at(aa, na, zt, c as int));
                assert(chol_entry_ok(aa, na, zt, c as int, c as int));
            }
            set_entry(&mut data, c, c, diag);
            let mut r2: usize = c + 1;
            while r2 < n
                invariant
                    self.wf(),
                    n == self.dimx && n == self.dimy,
                    aa == self.sv() && na == n as int && zt == ztol as int,
                    c < n,
                    c < r2 <= n,
                    data@.len() == n,
                    diag as int == chol_entry(aa, na, zt, c as int, c as int),
                    forall|p: int| 0 <= p < n ==> (#[trigger] data@[p])@.len() == n,
                    forall|rr: int, cc: int|
                        0 <= rr < n && 0 <= cc < c
                            ==> (#[trigger] data@[rr]@[cc]) as int == chol_entry(aa, na, zt, rr, cc),
                    data@[c as int]@[c as int] == diag,
                    forall|t: int|
                        c < t < r2
                            ==> (#[trigger] data@[t]@[c as int]) as int
                                == chol_entry(aa, na, zt, t, c as int),
                    forall|t: int| 0 <= t < c ==> (#[trigger] data@[t]@[c as int]) == 0i64,
                    forall|t: int| r2 <= t < n ==> (#[trigger] data@[t]@[c as int]) == 0i64,
                    forall|rr: int, cc: int|
                        0 <= rr < n && c < cc < n ==> (#[trigger] data@[rr]@[cc]) == 0i64,
                    forall|cc: int| 0 <= cc < c ==> #[trigger] chol_pd_at(aa, na, zt, cc),
                    chol_pd_at(aa, na, zt, c as int),
                    forall|rr: int, cc: int|
                        0 <= cc <= rr < n && cc < c ==> #[trigger] chol_entry_ok(aa, na, zt, rr, cc),
                    chol_entry_ok(aa, na, zt, c as int, c as int),
                    forall|t: int| c < t < r2 ==> #[trigger] chol_entry_ok(aa, na, zt, t, c as int),
                decreases n - r2,
            {
                proof {
                    assert forall|k: int| 0 <= k < c implies
                        #[trigger] iv(data@[c as int]@)[k] == chol_entry(aa, na, zt, c as int, k) by {
                        assert(data@[c as int]@[k] as int == chol_entry(aa, na, zt, c as int, k));
                    }
                    assert forall|k: int| 0 <= k < c implies
                        #[trigger] iv(data@[r2 as int]@)[k] == chol_entry(aa, na, zt, r2 as int, k) by {
                        assert(data@[r2 as int]@[k] as int == chol_entry(aa, na, zt, r2 as int, k));
                    }
                }
                let s0 = match dot_range_exec(&data[c], &data[r2], 0, c) {
                    Ok(s0) => s0,
                    Err(_) => {
                        proof {
                            lemma_chol_dot_eq(
                                aa, na, zt, c as int, r2 as int,
                                iv(data@[c as int]@), iv(data@[r2 as int]@), c as int,
                            );
                            assert(!chol_entry_ok(aa, na, zt, r2 as int, c as int));
                        }
                        return Err(MatrixError::ValueOutOfRange);
                    },
                };
                proof {
                    lemma_chol_dot_eq(
                        aa, na, zt, c as int, r2 as int,
                        iv(data@[c as int]@), iv(data@[r2 as int]@), c as int,
                    );
                    assert(s0 as int == chol_dot(aa, na, zt, c as int, r2 as int, c as int));
                }
                let sz: i64 = if (s0 as i128) < (ztol as i128) && -(ztol as i128) < (s0 as i128) {
                    0i64
                } else {
                    s0
                };
                proof {
                    assert(sz as int == chol_szero(aa, na, zt, r2 as int, c as int));
                }
                let num = match fx_sub(self.get(c, r2), sz) {
                    Ok(num) => num,
                    Err(_) => {
                        proof {
                            assert(!chol_entry_ok(aa, na, zt, r2 as int, c as int));
                        }
                        return Err(MatrixError::ValueOutOfRange);
                    },
                };
                let v: i64 = if diag == 0 {
                    0i64
                } else {
                    match fx_div(num, diag) {
                        Ok(v) => v,
                        Err(_) => {
                            proof {
                                assert(!chol_entry_ok(aa, na, zt, r2 as int, c as int));
                            }
                            return Err(MatrixError::ValueOutOfRange);
                        },
                    }
                };
                proof {
                    assert(v as int == chol_entry(aa, na, zt, r2 as int, c as int));
                    assert(chol_entry_ok(aa, na, zt, r2 as int, c as int));
                }
                set_entry(&mut data, r2, c, v);
                r2 = r2 + 1;
            }
            proof {
                assert forall|rr: int, cc: int|
                    0 <= rr < n && 0 <= cc < c + 1 implies
                    (#[trigger] data@[rr]@[cc]) as int == chol_entry(aa, na, zt, rr, cc) by {
                    if cc == c as int {
                        if rr < cc {
                            assert(data@[rr]@[cc] == 0i64);
                            assert(chol_entry(aa, na, zt, rr, cc) == 0);
                        }
                    }
                }
            }
            c = c + 1;
        }
        let m = Matrix { data, dimx: n, dimy: n };
        proof {
            assert forall|p: int, q: int|
                0 <= p < n && 0 <= q < n implies
                #[trigger] m.at(p, q) == chol_entry(aa, na, zt, p, q) by {
                assert(data@[p]@[q] as int == chol_entry(aa, na, zt, p, q));
            }
            assert(chol_pd(aa, na, zt));
            assert(chol_all_ok(aa, na, zt));
        }
        Ok(m)
    }
}

/// The entry at `(i, j)`, `i <= j`, of the inverse of `L·Lᵀ` for a
/// lower-triangular factor `L` (an `n` by `n` table), computed by
/// back-substitution from the last row and column toward the first.
///
/// The diagonal is `1/L[j][j]² - s/L[j][j]` with `s` the cross sum against
/// already-computed entries; an off-diagonal entry is `-s/L[i][i]`. A zero
/// divisor gives zero here; `cholesky_inverse` reports it as an error.
pub open spec fn inv_entry(l: Seq<Seq<int>>, n: int, i: int, j: int) -> int
    decreases n - 1 - j, j - i, 1int, 0int,
{
    if !(0 <= i && i <= j && j < n) {
        0
    } else if i == j {
        let tjj = ent(l, j, j);
        let t2 = fx_mul_v(tjj, tjj);
        if tjj == 0 || t2 == 0 {
            0
        } else {
            fx_div_v(crate::fixed::FX_ONE as int, t2) - fx_div_v(inv_sum_d(l, n, j, n), tjj)
        }
    } else {
        let tii = ent(l, i, i);
        if tii == 0 {
            0
        } else {
            fx_div_v(0 - inv_sum_o(l, n, i, j, n), tii)
        }
    }
}

/// The diagonal cross sum: over `k` in `(j, m)`, the rescaled products of
/// `L[k][j]` with the inverse's entry `(j, k)`.
pub open spec fn inv_sum_d(l: Seq<Seq<int>>, n: int, j: int, m: int) -> int
    decreases n - 1 - j, 0int, 0int, m,
{
    if !(0 <= j && j + 1 < m && m <= n) {
        0
    } else {
        inv_sum_d(l, n, j, m - 1) + fx_mul_v(ent(l, m - 1, j), inv_entry(l, n, j, m - 1))
    }
}

/// The off-diagonal cross sum: over `k` in `(i, m)`, the rescaled products
/// of `L[k][i]` with the inverse's entry `(k, j)`.
pub open spec fn inv_sum_o(l: Seq<Seq<int>>, n: int, i: int, j: int, m: int) -> int
    decreases n - 1 - j, j - i, 0int, m,
{
    if !(0 <= i && i <= j && j < n && i + 1 < m && m <= n) {
        0
    } else {
        let k = m - 1;
        let rkj = if k <= j { inv_entry(l, n, k, j) } else { inv_entry(l, n, j, k) };
        inv_sum_o(l, n, i, j, m - 1) + fx_mul_v(ent(l, k, i), rkj)
    }
}

/// The inverse's entry at any position: the canonical entry, mirrored.
pub open spec fn inv_full(l: Seq<Seq<int>>, n: int, p: int, q: int) -> int {
    if p <= q { inv_entry(l, n, p, q) } else { inv_entry(l, n, q, p) }
}

/// Every factor diagonal is nonzero: the condition for the back-substitution
/// to divide.
pub open spec fn inv_pd(l: Seq<Seq<int>>, n: int) -> bool {
    forall|j: int| 0 <= j < n ==> #[trigger] ent(l, j, j) != 0
}

/// Every product and partial sum of `inv_sum_d` fits the scalar range.
pub open spec fn inv_sum_d_ok(l: Seq<Seq<int>>, n: int, j: int, m: int) -> bool
    decreases m,
{
    if !(0 <= j && j + 1 < m && m <= n) {
        true
    } else {
        inv_sum_d_ok(l, n, j, m - 1)
            && fits_i64(fx_mul_v(ent(l, m - 1, j), inv_entry(l, n, j, m - 1)))
            && fits_i64(inv_sum_d(l, n, j, m))
    }
}

/// Every product and partial sum of `inv_sum_o` fits the scalar range.
pub open spec fn inv_sum_o_ok(l: Seq<Seq<int>>, n: int, i: int, j: int, m: int) -> bool
    decreases m,
{
    if !(0 <= i && i <= j && j < n && i + 1 < m && m <= n) {
        true
    } else {
        let k = m - 1;
        let rkj = if k <= j { inv_entry(l, n, k, j) } else { inv_entry(l, n, j, k) };
        inv_sum_o_ok(l, n, i, j, m - 1)
            && fits_i64(fx_mul_v(ent(l, k, i), rkj))
            && fits_i64(inv_sum_o(l, n, i, j, m))
    }
}

/// Every intermediate value in computing the inverse's entry `(i, j)` fits
/// the scalar range, and no rescaled divisor collapses to zero.
pub open spec fn inv_entry_ok(l: Seq<Seq<int>>, n: int, i: int, j: int) -> bool {
    if i == j {
        let tjj = ent(l, j, j);
        let t2 = fx_mul_v(tjj, tjj);
        inv_sum_d_ok(l, n, j, n)
            && fits_i64(t2)
            && t2 != 0
            && fits_i64(fx_div_v(crate::fixed::FX_ONE as int, t2))
            && fits_i64(fx_div_v(inv_sum_d(l, n, j, n), tjj))
            && fits_i64(fx_div_v(crate::fixed::FX_ONE as int, t2)
                - fx_div_v(inv_sum_d(l, n, j, n), tjj))
    } else {
        inv_sum_o_ok(l, n, i, j, n)
            && fits_i64(0 - inv_sum_o(l, n, i, j, n))
            && fits_i64(fx_div_v(0 - inv_sum_o(l, n, i, j, n), ent(l, i, i)))
    }
}

/// Every entry of the inverse of the `n` by `n` factor can be computed.
pub open spec fn inv_all_ok(l: Seq<Seq<int>>, n: int) -> bool {
    forall|i: int, j: int| 0 <= i <= j < n ==> #[trigger] inv_entry_ok(l, n, i, j)
}

/// `inv_sum_d_ok` is closed under shortening the sum.
pub proof fn lemma_inv_sum_d_ok_prefix(l: Seq<Seq<int>>, n: int, j: int, m: int, m2: int)
    requires
        0 <= j,
        j + 1 <= m <= m2,
        m2 <= n,
    ensures
        inv_sum_d_ok(l, n, j, m2) ==> inv_sum_d_ok(l, n, j, m),
    decreases m2,
{
    if m < m2 && inv_sum_d_ok(l, n, j, m2) {
        lemma_inv_sum_d_ok_prefix(l, n, j, m, m2 - 1);
    }
}

/// `inv_sum_o_ok` is closed under shortening the sum.
pub proof fn lemma_inv_sum_o_ok_prefix(l: Seq<Seq<int>>, n: int, i: int, j: int, m: int, m2: int)
    requires
        0 <= i,
        i + 1 <= m <= m2,
        m2 <= n,
    ensures
        inv_sum_o_ok(l, n, i, j, m2) ==> inv_sum_o_ok(l, n, i, j, m),
    decreases m2,
{
    if m < m2 && inv_sum_o_ok(l, n, i, j, m2) {
        lemma_inv_sum_o_ok_prefix(l, n, i, j, m, m2 - 1);
    }
}

/// Rows that materialize the factor's column `j` and the inverse's row `j`
/// give `inv_sum_d` as their `dot_range`.
pub proof fn lemma_inv_sum_d_eq(
    l: Seq<Seq<int>>, n: int, j: int, u: Seq<int>, v: Seq<int>, m: int,
)
    requires
        0 <= j,
        j + 1 <= m,
        m <= n,
        m <= u.len(),
        m <= v.len(),
        forall|k: int| j + 1 <= k < m ==> #[trigger] u[k] == ent(l, k, j),
        forall|k: int| j + 1 <= k < m ==> #[trigger] v[k] == inv_entry(l, n, j, k),
    ensures
        dot_range(u, v, j + 1, m) == inv_sum_d(l, n, j, m),
        dot_range_ok(u, v, j + 1, m) == inv_sum_d_ok(l, n, j, m),
    decreases m,
{
    if j + 1 < m {
        lemma_inv_sum_d_eq(l, n, j, u, v, m - 1);
    }
}

/// Rows that materialize the factor's column `i` and the inverse's row `j`
/// give `inv_sum_o` as their `dot_range`.
pub proof fn lemma_inv_sum_o_eq(
    l: Seq<Seq<int>>, n: int, i: int, j: int, u: Seq<int>, v: Seq<int>, m: int,
)
    requires
        0 <= i,
        i <= j < n,
        i + 1 <= m,
        m <= n,
        m <= u.len(),
        m <= v.len(),
        forall|k: int| i + 1 <= k < m ==> #[trigger] u[k] == ent(l, k, i),
        forall|k: int| i + 1 <= k < m ==> #[trigger] v[k] == inv_full(l, n, k, j),
    ensures
        dot_range(u, v, i + 1, m) == inv_sum_o(l, n, i, j, m),
        dot_range_ok(u, v, i + 1, m) == inv_sum_o_ok(l, n, i, j, m),
    decreases m,
{
    if i + 1 < m {
        lemma_inv_sum_o_eq(l, n, i, j, u, v, m - 1);
    }
}

impl Matrix {
    /// The inverse of `L·Lᵀ` for this lower-triangular Cholesky factor `L`,
    /// filled from the last row and column backward to the first, each
    /// symmetric off-diagonal pair computed once and mirrored.
    ///
    /// Fails with `NotPositiveDefinite` when a factor diagonal is zero (the
    /// factored matrix was singular), with `ValueOutOfRange` when a value
    /// leaves the scalar range or a rescaled divisor collapses to zero, and
    /// with `DimensionMismatch` for a non-square input.
    pub fn cholesky_inverse(&self) -> (r: Result<Matrix, MatrixError>)
        requires
            self.wf(),
        ensures
            r is Ok <==> self.dimx == self.dimy && inv_pd(self.sv(), self.dimx as int)
                && inv_all_ok(self.sv(), self.dimx as int),
            r matches Ok(m) ==> m.wf() && m.dimx == self.dimx && m.dimy == self.dimx
                && forall|p: int, q: int|
                    0 <= p < self.dimx && 0 <= q < self.dimx
                        ==> #[trigger] m.at(p, q) == inv_full(self.sv(), self.dimx as int, p, q),
            r matches Err(e) ==> if self.dimx != self.dimy {
                e == MatrixError::DimensionMismatch
            } else if !inv_pd(self.sv(), self.dimx as int) && inv_all_ok(self.sv(), self.dimx as int) {
                e == MatrixError::NotPositiveDefinite
            } else if inv_pd(self.sv(), self.dimx as int) && !inv_all_ok(self.sv(), self.dimx as int) {
                e == MatrixError::ValueOutOfRange
            } else {
                e == MatrixError::NotPositiveDefinite || e == MatrixError::ValueOutOfRange
            },
    {
        if self.dimx != self.dimy {
            return Err(MatrixError::DimensionMismatch);
        }
        let n = self.dimx;
        let ghost ll = self.sv();
        let ghost na = n as int;
        let lt = self.transpose();
        let mut data: Vec<Vec<i64>> = Vec::new();
        let mut z: usize = 0;
        while z < n
            invariant
                z <= n,
                data@.len() == z,
                forall|p: int| 0 <= p < z ==> (#[trigger] data@[p])@.len() == n,
                forall|p: int, q: int| 0 <= p < z && 0 <= q < n ==> (#[trigger] data@[p]@[q]) == 0i64,
            decreases n - z,
        {
            data.push(zero_row(n));
            z = z + 1;
        }
        let mut jj: usize = n;
        while jj > 0
            invariant
                self.wf(),
                lt.wf(),
                n == self.dimx && n == self.dimy,
                lt.dimx == n && lt.dimy == n,
                ll == self.sv() && na == n as int,
                forall|i: int, k: int|
                    0 <= i < n && 0 <= k < n ==> #[trigger] lt.at(i, k) == ent(ll, k, i),
                jj <= n,
                data@.len() == n,
                forall|p: int| 0 <= p < n ==> (#[trigger] data@[p])@.len() == n,
                forall|p: int, q: int|
                    0 <= p < n && 0 <= q < n && (p >= jj || q >= jj)
                        ==> (#[trigger] data@[p]@[q]) as int == inv_full(ll, na, p, q),
                forall|p: int, q: int|
                    0 <= p < jj && 0 <= q < jj ==> (#[trigger] data@[p]@[q]) == 0i64,
                forall|t: int| jj <= t < n ==> #[trigger] ent(ll, t, t) != 0,
                forall|i: int, t: int|
                    0 <= i <= t < n && jj <= t ==> #[trigger] inv_entry_ok(ll, na, i, t),
            decreases jj,
        {
            jj = jj - 1;
            let j = jj;
            let tjj = self.get(j, j);
            if tjj == 0 {
                proof {
                    assert(!inv_pd(ll, na));
                }
                return Err(MatrixError::NotPositiveDefinite);
            }
            proof {
                assert forall|k: int| j + 1 <= k < n implies
                    #[trigger] iv(lt.data@[j as int]@)[k] == ent(ll, k, j as int) by {
                    assert(lt.data@[j as int]@[k] as int == lt.at(j as int, k));
                }
                assert forall|k: int| j + 1 <= k < n implies
                    #[trigger] iv(data@[j as int]@)[k] == inv_entry(ll, na, j as int, k) by {
                    assert(data@[j as int]@[k] as int == inv_full(ll, na, j as int, k));
                }
            }
            let s = match dot_range_exec(&lt.data[j], &data[j], j + 1, n) {
                Ok(s) => s,
                Err(_) => {
                    proof {
                        lemma_inv_sum_d_eq(
                            ll, na, j as int, iv(lt.data@[j as int]@), iv(data@[j as int]@), na,
                        );
                        assert(!inv_entry_ok(ll, na, j as int, j as int));
                    }
                    return Err(MatrixError::ValueOutOfRange);
                },
            };
            proof {
                lemma_inv_sum_d_eq(
                    ll, na, j as int, iv(lt.data@[j as int]@), iv(data@[j as int]@), na,
                );
                assert(s as int == inv_sum_d(ll, na, j as int, na));
            }
            let t2 = match fx_mul(tjj, tjj) {
                Ok(t2) => t2,
                Err(_) => {
                    proof {
                        assert(!inv_entry_ok(ll, na, j as int, j as int));
                    }
                    return Err(MatrixError::ValueOutOfRange);
                },
            };
            if t2 == 0 {
                proof {
                    assert(!inv_entry_ok(ll, na, j as int, j as int));
                }
                return Err(MatrixError::ValueOutOfRange);
            }
            let a = match fx_div(FX_ONE, t2) {
                Ok(a) => a,
                Err(_) => {
                    proof {
                        assert(!inv_entry_ok(ll, na, j as int, j as int));
                    }
                    return Err(MatrixError::ValueOutOfRange);
                },
            };
            let b = match fx_div(s, tjj) {
                Ok(b) => b,
                Err(_) => {
                    proof {
                        assert(!inv_entry_ok(ll, na, j as int, j as int));
                    }
                    return Err(MatrixError::ValueOutOfRange);
                },
            };
            let dv = match fx_sub(a, b) {
                Ok(dv) => dv,
                Err(_) => {
                    proof {
                        assert(!inv_entry_ok(ll, na, j as int, j as int));
                    }
                    return Err(MatrixError::ValueOutOfRange);
                },
            };
            proof {
                assert(dv as int == inv_entry(ll, na, j as int, j as int));
                assert(inv_entry_ok(ll, na, j as int, j as int));
            }
            set_entry(&mut data, j, j, dv);
            let mut ii: usize = j;
            while ii > 0
                invariant
                    self.wf(),
                    lt.wf(),
                    n == self.dimx && n == self.dimy,
                    lt.dimx == n && lt.dimy == n,
                    ll == self.sv() && na == n as int,
                    forall|i2: int, k: int|
                        0 <= i2 < n && 0 <= k < n ==> #[trigger] lt.at(i2, k) == ent(ll, k, i2),
                    j < n,
                    ii <= j,
                    data@.len() == n,
                    forall|p: int| 0 <= p < n ==> (#[trigger] data@[p])@.len() == n,
                    forall|p: int, q: int|
                        0 <= p < n && 0 <= q < n && (p > j || q > j)
                            ==> (#[trigger] data@[p]@[q]) as int == inv_full(ll, na, p, q),
                    data@[j as int]@[j as int] as int == inv_entry(ll, na, j as int, j as int),
                    forall|t: int|
                        ii <= t < j
                            ==> (#[trigger] data@[t]@[j as int]) as int == inv_entry(ll, na, t, j as int),
                    forall|t: int|
                        ii <= t < j
                            ==> (#[trigger] data@[j as int]@[t]) as int == inv_entry(ll, na, t, j as int),
                    forall|t: int| 0 <= t < ii ==> (#[trigger] data@[t]@[j as int]) == 0i64,
                    forall|t: int| 0 <= t < ii ==> (#[trigger] data@[j as int]@[t]) == 0i64,
                    forall|p: int, q: int|
                        0 <= p < j && 0 <= q < j ==> (#[trigger] data@[p]@[q]) == 0i64,
                    ent(ll, j as int, j as int) != 0,
                    forall|t: int| j < t < n ==> #[trigger] ent(ll, t, t) != 0,
                    inv_entry_ok(ll, na, j as int, j as int),
                    forall|i2: int, t: int|
                        0 <= i2 <= t < n && j < t ==> #[trigger] inv_entry_ok(ll, na, i2, t),
                    forall|t: int| ii <= t < j ==> #[trigger] inv_entry_ok(ll, na, t, j as int),
                decreases ii,
            {
                ii = ii - 1;
                let i = ii;
                let tii = self.get(i, i);
                if tii == 0 {
                    proof {
                        assert(!inv_pd(ll, na));
                    }
                    return Err(MatrixError::NotPositiveDefinite);
                }
                proof {
                    assert forall|k: int| i + 1 <= k < n implies
                        #[trigger] iv(lt.data@[i as int]@)[k] == ent(ll, k, i as int) by {
                        assert(lt.data@[i as int]@[k] as int == lt.at(i as int, k));
                    }
                    assert forall|k: int| i + 1 <= k < n implies
                        #[trigger] iv(data@[j as int]@)[k] == inv_full(ll, na, k, j as int) by {
                        if k > j {
                            assert(data@[j as int]@[k] as int == inv_full(ll, na, j as int, k));
                        } else if k == j {
                            assert(data@[j as int]@[k] as int == inv_entry(ll, na, j as int, j as int));
                        } else {
                            assert(data@[j as int]@[k] as int == inv_entry(ll, na, k, j as int));
                        }
                    }
                }
                let s2 = match dot_range_exec(&lt.data[i], &data[j], i + 1, n) {
                    Ok(s2) => s2,
                    Err(_) => {
                        proof {
                            lemma_inv_sum_o_eq(
                                ll, na, i as int, j as int,
                                iv(lt.data@[i as int]@), iv(data@[j as int]@), na,
                            );
                            assert(!inv_entry_ok(ll, na, i as int, j as int));
                        }
                        return Err(MatrixError::ValueOutOfRange);
                    },
                };
                proof {
                    lemma_inv_sum_o_eq(
                        ll, na, i as int, j as int,
                        iv(lt.data@[i as int]@), iv(data@[j as int]@), na,
                    );
                    assert(s2 as int == inv_sum_o(ll, na, i as int, j as int, na));
                }
                let neg = match fx_sub(0, s2) {
                    Ok(neg) => neg,
                    Err(_) => {
                        proof {
                            assert(!inv_entry_ok(ll, na, i as int, j as int));
                        }
                        return Err(MatrixError::ValueOutOfRange);
                    },
                };
                let v = match fx_div(neg, tii) {
                    Ok(v) => v,
                    Err(_) => {
                        proof {
                            assert(!inv_entry_ok(ll, na, i as int, j as int));
                        }
                        return Err(MatrixError::ValueOutOfRange);
                    },
                };
                proof {
                    assert(v as int == inv_entry(ll, na, i as int, j as int));
                    assert(inv_entry_ok(ll, na, i as int, j as int));
                }
                set_entry(&mut data, i, j, v);
                set_entry(&mut data, j, i, v);
            }
            proof {
                assert forall|p: int, q: int|
                    0 <= p < n && 0 <= q < n && (p >= jj || q >= jj) implies
                    (#[trigger] data@[p]@[q]) as int == inv_full(ll, na, p, q) by {
                    if p > j || q > j {
                    } else if p == j && q == j {
                    } else if q == j {
                        assert(data@[p]@[q] as int == inv_entry(ll, na, p, j as int));
                    } else {
                        assert(data@[j as int]@[q] as int == inv_entry(ll, na, q, j as int));
                    }
                }
            }
        }
        let m = Matrix { data, dimx: n, dimy: n };
        proof {
            assert forall|p: int, q: int|
                0 <= p < n && 0 <= q < n implies
                #[trigger] m.at(p, q) == inv_full(ll, na, p, q) by {
                assert(data@[p]@[q] as int == inv_full(ll, na, p, q));
            }
            assert(inv_pd(ll, na));
            assert(inv_all_ok(ll, na));
        }
        Ok(m)
    }
}

/// The tolerance `inverse` hands to the factorization: about `1e-5` in
/// fixed-point units.
pub const INVERSE_ZTOL: i64 = 10;

/// The whole Cholesky factor of `a` as a table.
pub open spec fn chol_seq(a: Seq<Seq<int>>, n: int, ztol: int) -> Seq<Seq<int>> {
    Seq::new(n as nat, |r: int| Seq::new(n as nat, |c: int| chol_entry(a, n, ztol, r, c)))
}

impl Matrix {
    /// The inverse, by Cholesky factorization followed by back-substitution.
    /// This is the sole inversion path: a non-positive-definite or
    /// ill-conditioned input is a hard failure, not a degraded result.
    pub fn inverse(&self) -> (r: Result<Matrix, MatrixError>)
        requires
            self.wf(),
        ensures
            r is Ok <==> self.dimx == self.dimy
                && chol_pd(self.sv(), self.dimx as int, INVERSE_ZTOL as int)
                && chol_all_ok(self.sv(), self.dimx as int, INVERSE_ZTOL as int)
                && inv_pd(
                    chol_seq(self.sv(), self.dimx as int, INVERSE_ZTOL as int),
                    self.dimx as int,
                )
                && inv_all_ok(
                    chol_seq(self.sv(), self.dimx as int, INVERSE_ZTOL as int),
                    self.dimx as int,
                ),
            r matches Ok(m) ==> m.wf() && m.dimx == self.dimx && m.dimy == self.dimx
                && forall|p: int, q: int|
                    0 <= p < self.dimx && 0 <= q < self.dimx
                        ==> #[trigger] m.at(p, q) == inv_full(
                            chol_seq(self.sv(), self.dimx as int, INVERSE_ZTOL as int),
                            self.dimx as int,
                            p,
                            q,
                        ),
            r matches Err(e) ==> if self.dimx != self.dimy {
                e == MatrixError::DimensionMismatch
            } else {
                (e == MatrixError::NotPositiveDefinite || e == MatrixError::ValueOutOfRange)
                && (e == MatrixError::NotPositiveDefinite
                    ==> !chol_pd(self.sv(), self.dimx as int, INVERSE_ZTOL as int)
                        || !inv_pd(
                            chol_seq(self.sv(), self.dimx as int, INVERSE_ZTOL as int),
                            self.dimx as int,
                        ))
                && (e == MatrixError::ValueOutOfRange
                    ==> !chol_all_ok(self.sv(), self.dimx as int, INVERSE_ZTOL as int)
                        || !inv_all_ok(
                            chol_seq(self.sv(), self.dimx as int, INVERSE_ZTOL as int),
                            self.dimx as int,
                        ))
            },
    {
        let ghost na = self.dimx as int;
        let ghost zt = INVERSE_ZTOL as int;
        let aux = match self.cholesky(INVERSE_ZTOL) {
            Ok(aux) => aux,
            Err(e) => {
                return Err(e);
            },
        };
        proof {
            assert forall|p: int| 0 <= p < na implies
                #[trigger] aux.sv()[p] =~= chol_seq(self.sv(), na, zt)[p] by {
                assert forall|q: int| 0 <= q < na implies
                    #[trigger] aux.sv()[p][q] == chol_entry(self.sv(), na, zt, p, q) by {
                    assert(aux.at(p, q) == chol_entry(self.sv(), na, zt, p, q));
                }
            }
            assert(aux.sv() =~~= chol_seq(self.sv(), na, zt));
        }
        match aux.cholesky_inverse() {
            Ok(m) => Ok(m),
            Err(e) => Err(e),
        }
    }
}

/// Table `s` with `delta` added to entry `(i, j)`.
pub open spec fn bump_seq(s: Seq<Seq<int>>, i: int, j: int, delta: int) -> Seq<Seq<int>> {
    s.update(i, s[i].update(j, s[i][j] + delta))
}

impl Matrix {
    /// Add `delta` to one entry in place, reporting `ValueOutOfRange` (and
    /// leaving the matrix unchanged) when the sum leaves the scalar range.
    pub fn bump_add(&mut self, i: usize, j: usize, delta: i64) -> (r: Result<(), MatrixError>)
        requires
            old(self).wf(),
            i < old(self).dimx,
            j < old(self).dimy,
        ensures
            final(self).wf(),
            final(self).dimx == old(self).dimx,
            final(self).dimy == old(self).dimy,
            r is Ok <==> fits_i64(old(self).at(i as int, j as int) + delta),
            r is Ok ==> final(self).sv() == bump_seq(old(self).sv(), i as int, j as int, delta as int),
            r matches Err(e) ==> e == MatrixError::ValueOutOfRange && *final(self) == *old(self),
    {
        let cur = self.data[i][j];
        match fx_add(cur, delta) {
            Ok(v) => {
                set_entry(&mut self.data, i, j, v);
                proof {
                    lemma_bump_view(*old(self), *self, i as int, j as int, delta as int, v);
                }
                Ok(())
            },
            Err(e) => Err(e),
        }
    }

    /// Subtract `delta` from one entry in place, reporting `ValueOutOfRange`
    /// (and leaving the matrix unchanged) when the difference leaves the
    /// scalar range.
    pub fn bump_sub(&mut self, i: usize, j: usize, delta: i64) -> (r: Result<(), MatrixError>)
        requires
            old(self).wf(),
            i < old(self).dimx,
            j < old(self).dimy,
        ensures
            final(self).wf(),
            final(self).dimx == old(self).dimx,
            final(self).dimy == old(self).dimy,
            r is Ok <==> fits_i64(old(self).at(i as int, j as int) - delta),
            r is Ok ==> final(self).sv() == bump_seq(
                old(self).sv(), i as int, j as int, 0 - delta as int,
            ),
            r matches Err(e) ==> e == MatrixError::ValueOutOfRange && *final(self) == *old(self),
    {
        let cur = self.data[i][j];
        match fx_sub(cur, delta) {
            Ok(v) => {
                set_entry(&mut self.data, i, j, v);
                proof {
                    lemma_bump_view(*old(self), *self, i as int, j as int, 0 - delta as int, v);
                }
                Ok(())
            },
            Err(e) => Err(e),
        }
    }
}

/// Updating one stored entry updates the table view at that entry alone.
proof fn lemma_bump_view(before: Matrix, after: Matrix, i: int, j: int, delta: int, v: i64)
    requires
        before.wf(),
        0 <= i < before.dimx,
        0 <= j < before.dimy,
        after.dimx == before.dimx,
        after.dimy == before.dimy,
        after.data@.len() == before.data@.len(),
        v as int == before.at(i, j) + delta,
        after.data@[i]@ == before.data@[i]@.update(j, v),
        forall|p: int| 0 <= p < after.data@.len() && p != i ==> after.data@[p] == before.data@[p],
    ensures
        after.wf(),
        after.sv() == bump_seq(before.sv(), i, j, delta),
{
    assert forall|p: int| 0 <= p < before.dimx implies
        #[trigger] after.sv()[p] =~= bump_seq(before.sv(), i, j, delta)[p] by {
        if p == i {
            assert forall|q: int| 0 <= q < before.dimy implies
                #[trigger] after.sv()[p][q] == bump_seq(before.sv(), i, j, delta)[p][q] by {
                assert(after.data@[p]@[q] == before.data@[p]@.update(j, v)[q]);
            }
        } else {
            assert(after.data@[p] == before.data@[p]);
        }
    }
    assert(after.sv() =~~= bump_seq(before.sv(), i, j, delta));
}

/// A matrix whose entries agree with a table of its dimensions views as
/// exactly that table.
pub proof fn lemma_table_eq(m: Matrix, t: Seq<Seq<int>>, dx: int, dy: int)
    requires
        m.wf(),
        m.dimx == dx,
        m.dimy == dy,
        is_table(t, dx, dy),
        forall|i: int, j: int| 0 <= i < dx && 0 <= j < dy ==> #[trigger] m.at(i, j) == t[i][j],
    ensures
        m.sv() == t,
{
    assert forall|p: int| 0 <= p < dx implies #[trigger] m.sv()[p] =~= t[p] by {
        assert forall|q: int| 0 <= q < dy implies #[trigger] m.sv()[p][q] == t[p][q] by {
            assert(m.at(p, q) == t[p][q]);
        }
    }
    assert(m.sv() =~~= t);
}

} // verus!
