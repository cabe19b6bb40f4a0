//! The characteristic polynomial of a square matrix over GF(2), computed
//! without division by the Berkowitz recurrence.

use crate::gf2int::GF2Int;
use crate::matrix::{block, canonical, mat_mul, GF2Matrix};
use vstd::prelude::*;

verus! {

/// The matrix `a` without its first row and first column.
pub open spec fn minor(a: Seq<Seq<bool>>) -> Seq<Seq<bool>> {
    block(a, 1, a.len() as int, 1, a.len() as int)
}

/// The column `minor(a)^i * c`, where `c` is the first column of `a`
/// without its first entry.
pub open spec fn diag_vector(a: Seq<Seq<bool>>, i: nat) -> Seq<Seq<bool>>
    decreases i,
{
    if i == 0 {
        block(a, 1, a.len() as int, 0, 1)
    } else {
        mat_mul(minor(a), diag_vector(a, (i - 1) as nat), 1)
    }
}

/// Entry `k` of the sequence `1, a, r * d_0, r * d_1, ...` that fills the
/// diagonals of the Toeplitz matrix of `a`; `a` is the corner entry and
/// `r` the first row without it.
pub open spec fn toeplitz_diag(a: Seq<Seq<bool>>, k: nat) -> bool {
    if k == 0 {
        true
    } else if k == 1 {
        a[0][0]
    } else {
        mat_mul(block(a, 0, 1, 1, a.len() as int), diag_vector(a, (k - 2) as nat), 1)[0][0]
    }
}

/// The lower triangular Toeplitz matrix of `a`, of one row more than `a`.
pub open spec fn toeplitz(a: Seq<Seq<bool>>) -> Seq<Seq<bool>> {
    Seq::new(
        a.len() + 1,
        |i: int| Seq::new(a.len(), |j: int| j <= i && toeplitz_diag(a, (i - j) as nat)),
    )
}

/// The coefficients of the characteristic polynomial of the square
/// matrix `a`, leading coefficient first, as a column: the product of the
/// Toeplitz matrices of `a` and of its trailing principal minors.
pub open spec fn berkowitz(a: Seq<Seq<bool>>) -> Seq<Seq<bool>>
    decreases a.len(),
{
    if a.len() == 0 {
        seq![seq![true]]
    } else if a.len() == 1 {
        seq![seq![true], seq![a[0][0]]]
    } else {
        mat_mul(toeplitz(a), berkowitz(minor(a)), 1)
    }
}

/// The coefficients of the characteristic polynomial of `a`, leading
/// coefficient first.
pub open spec fn charpoly(a: Seq<Seq<bool>>) -> Seq<bool> {
    Seq::new(a.len() + 1, |i: int| berkowitz(a)[i][0])
}

/// The trailing principal minor of a matrix and its Toeplitz matrix.
pub fn berkowitz_toeplitz_matrix(matrix: &GF2Matrix) -> (r: (GF2Matrix, GF2Matrix))
    requires
        matrix.wf(),
        matrix.height == matrix.width,
        matrix.height >= 2,
    ensures
        r.0.wf(),
        r.0.height == matrix.height - 1,
        r.0.width == matrix.height - 1,
        r.0@ == minor(matrix@),
        r.1.wf(),
        r.1.height == matrix.height + 1,
        r.1.width == matrix.height,
        r.1@ == toeplitz(matrix@),
{
    let n: usize = matrix.height;
    let a = matrix.get(0, 0);
    let r = matrix.slice(0, 1, 1, n);
    let c = matrix.slice(1, n, 0, 1);
    let sub_a = matrix.slice(1, n, 1, n);
    let mut diag_vecs: Vec<GF2Matrix> = Vec::new();
    diag_vecs.push(c);
    let mut i: usize = 0;
    while i < n - 2
        invariant
            n == matrix.height,
            n >= 2,
            i <= n - 2,
            sub_a.wf(),
            sub_a.height == n - 1,
            sub_a.width == n - 1,
            sub_a@ == minor(matrix@),
            diag_vecs.len() == i + 1,
            forall|k: int|
                0 <= k <= i ==> {
                    &&& (#[trigger] diag_vecs[k]).wf()
                    &&& diag_vecs[k].height == n - 1
                    &&& diag_vecs[k].width == 1
                    &&& diag_vecs[k]@ == diag_vector(matrix@, k as nat)
                },
        decreases n - 2 - i,
    {
        let next = sub_a.dot(&diag_vecs[i]);
        diag_vecs.push(next);
        i = i + 1;
    }
    let mut diags: Vec<GF2Int> = Vec::new();
    diags.push(GF2Int::new(1));
    diags.push(a);
    let mut k: usize = 0;
    while k < n - 1
        invariant
            n == matrix.height,
            n >= 2,
            k <= n - 1,
            r.wf(),
            r.height == 1,
            r.width == n - 1,
            r@ == block(matrix@, 0, 1, 1, n as int),
            diag_vecs.len() == n - 1,
            forall|k: int|
                0 <= k < n - 1 ==> {
                    &&& (#[trigger] diag_vecs[k]).wf()
                    &&& diag_vecs[k].height == n - 1
                    &&& diag_vecs[k].width == 1
                    &&& diag_vecs[k]@ == diag_vector(matrix@, k as nat)
                },
            diags.len() == k + 2,
            forall|t: int| 0 <= t < k + 2 ==> (#[trigger] diags[t]).bit() == toeplitz_diag(matrix@, t as nat),
            canonical(diags@),
        decreases n - 1 - k,
    {
        let prod = r.dot(&diag_vecs[k]);
        diags.push(prod.get(0, 0));
        k = k + 1;
    }
    let mut data: Vec<Vec<GF2Int>> = Vec::new();
    let mut i: usize = 0;
    while i < n + 1
        invariant
            n == matrix.height,
            i <= n + 1,
            diags.len() == n + 1,
            forall|t: int| 0 <= t < n + 1 ==> (#[trigger] diags[t]).bit() == toeplitz_diag(matrix@, t as nat),
            canonical(diags@),
            data.len() == i,
            forall|x: int| 0 <= x < i ==> (#[trigger] data[x]).len() == n && canonical(data[x]@),
            forall|x: int, y: int|
                0 <= x < i && 0 <= y < n ==> (#[trigger] data[x][y]).bit() == (y <= x
                    && toeplitz_diag(matrix@, (x - y) as nat)),
        decreases n + 1 - i,
    {
        let mut row: Vec<GF2Int> = Vec::new();
        let mut j: usize = 0;
        while j < n
            invariant
                n == matrix.height,
                i < n + 1,
                j <= n,
                diags.len() == n + 1,
                forall|t: int| 0 <= t < n + 1 ==> (#[trigger] diags[t]).bit() == toeplitz_diag(matrix@, t as nat),
            canonical(diags@),
                row.len() == j,
                canonical(row@),
                forall|y: int|
                    0 <= y < j ==> (#[trigger] row[y]).bit() == (y <= i && toeplitz_diag(
                        matrix@,
                        (i - y) as nat,
                    )),
            decreases n - j,
        {
            if j > i {
                row.push(GF2Int::new(0));
            } else {
                row.push(diags[i - j]);
            }
            j = j + 1;
        }
        data.push(row);
        i = i + 1;
    }
    let toeplitz_matrix = GF2Matrix { height: n + 1, width: n, data };
    assert(toeplitz_matrix@ =~~= toeplitz(matrix@));
    (sub_a, toeplitz_matrix)
}

/// The Berkowitz vector of a square matrix, as a column.
pub fn berkowitz_vector(matrix: &GF2Matrix) -> (r: GF2Matrix)
    requires
        matrix.wf(),
        matrix.height == matrix.width,
        matrix.height < usize::MAX,
    ensures
        r.wf(),
        r.height == matrix.height + 1,
        r.width == 1,
        r@ == berkowitz(matrix@),
    decreases matrix.height,
{
    if matrix.height == 0 {
        let mut row: Vec<GF2Int> = Vec::new();
        row.push(GF2Int::new(1));
        let mut data: Vec<Vec<GF2Int>> = Vec::new();
        data.push(row);
        let r = GF2Matrix { height: 1, width: 1, data };
        assert(r@ =~~= berkowitz(matrix@));
        return r;
    } else if matrix.height == 1 {
        let mut top: Vec<GF2Int> = Vec::new();
        top.push(GF2Int::new(1));
        let mut bottom: Vec<GF2Int> = Vec::new();
        bottom.push(matrix.get(0, 0));
        let mut data: Vec<Vec<GF2Int>> = Vec::new();
        data.push(top);
        data.push(bottom);
        let r = GF2Matrix { height: 2, width: 1, data };
        assert(r@ =~~= berkowitz(matrix@));
        return r;
    }
    let (submat, toeplitz_matrix) = berkowitz_toeplitz_matrix(matrix);
    let tail = berkowitz_vector(&submat);
    toeplitz_matrix.dot(&tail)
}

/// The characteristic polynomial of a matrix.
pub trait CharPoly {
    type NumberType;

    /// The matrices of which the polynomial is defined.
    spec fn charpoly_defined(&self) -> bool;

    /// The coefficients of the characteristic polynomial, leading
    /// coefficient first.
    fn compute_charpoly_coeffs(&mut self) -> (r: Vec<Self::NumberType>)
        requires
            old(self).charpoly_defined(),
    ;
}

impl CharPoly for GF2Matrix {
    type NumberType = GF2Int;

    open spec fn charpoly_defined(&self) -> bool {
        self.wf() && self.height == self.width && self.height < usize::MAX
    }

    fn compute_charpoly_coeffs(&mut self) -> (r: Vec<GF2Int>)
        ensures
            final(self)@ == old(self)@,
            final(self).wf(),
            final(self).height == old(self).height,
            final(self).width == old(self).width,
            r.len() == old(self).height + 1,
            canonical(r@),
            r[0].val == 1,
            crate::matrix::row_bits(r@) == charpoly(old(self)@),
    {
        let berk_mat = berkowitz_vector(self);
        let mut coeffs: Vec<GF2Int> = Vec::new();
        let mut i: usize = 0;
        while i < berk_mat.height
            invariant
                berk_mat.wf(),
                berk_mat.width == 1,
                i <= berk_mat.height,
                coeffs.len() == i,
                canonical(coeffs@),
                forall|k: int| 0 <= k < i ==> (#[trigger] coeffs[k]).bit() == berk_mat@[k][0],
            decreases berk_mat.height - i,
        {
            coeffs.push(berk_mat.get(i, 0));
            i = i + 1;
        }
        assert(crate::matrix::row_bits(coeffs@) =~= charpoly(self@));
        proof {
            lemma_berkowitz_monic(self@);
            assert(coeffs[0].bit());
            assert(coeffs[0].wf());
        }
        coeffs
    }
}


/// The characteristic polynomial is monic: its leading coefficient is
/// one.
pub proof fn lemma_berkowitz_monic(a: Seq<Seq<bool>>)
    ensures
        berkowitz(a).len() == a.len() + 1,
        berkowitz(a)[0].len() == 1,
        berkowitz(a)[0][0],
    decreases a.len(),
{
    if a.len() >= 2 {
        let sub = minor(a);
        lemma_berkowitz_monic(sub);
        let top = toeplitz(a)[0];
        crate::mat_builder::lemma_unit_dot(top, berkowitz(sub), 0, 0, a.len());
    }
}

} // verus!
