//! Inversion of GF(2) matrices and the block algebra from which the
//! transition matrix of a generator is put together.

use crate::error::Error;
use crate::gf2int::GF2Int;
use crate::matrix::{
    add_rows, canonical, copy_row, dot_prefix, identity, lemma_dot_add, lemma_dot_as_column,
    lemma_dot_column_single, lemma_dot_update, lemma_dot_zero_column, lemma_inverse_unique,
    lemma_row_assoc, lemma_row_times_add, mat_add, mat_mul, row_add, row_bits, row_times,
    GF2Matrix,
};
use vstd::assert_by_contradiction;
use vstd::prelude::*;

verus! {

/// All rows of `m` have length `n`, there are `n` of them, and every
/// entry is stored as 0 or 1.
pub open spec fn square_rows(m: Seq<Vec<GF2Int>>, n: nat) -> bool {
    &&& m.len() == n
    &&& forall|i: int| 0 <= i < n ==> (#[trigger] m[i]).len() == n && canonical(m[i]@)
}

/// Row `i` of `mat` is row `i` of `res` times `a`, for every row.
pub open spec fn tracks(mat: Seq<Vec<GF2Int>>, res: Seq<Vec<GF2Int>>, a: Seq<Seq<bool>>) -> bool {
    forall|i: int|
        0 <= i < mat.len() ==> row_bits((#[trigger] mat[i])@) == row_times(
            row_bits(res[i]@),
            a,
            a.len(),
        )
}

/// `after` is `before` with row `src` added to row `dst`: row `dst`
/// holds the entrywise sum of the two rows, every other row is as it
/// was.
pub open spec fn row_added(
    before: Seq<Vec<GF2Int>>,
    after: Seq<Vec<GF2Int>>,
    dst: int,
    src: int,
) -> bool {
    &&& after.len() == before.len()
    &&& after[dst].len() == before[dst].len()
    &&& row_bits(after[dst]@) == row_add(row_bits(before[dst]@), row_bits(before[src]@))
    &&& forall|i: int| 0 <= i < before.len() && i != dst ==> (#[trigger] after[i])@ == before[i]@
}

/// `after` is `before` with rows `x` and `y` exchanged: each of the two
/// holds what the other held, every other row is as it was.
pub open spec fn rows_swapped(
    before: Seq<Vec<GF2Int>>,
    after: Seq<Vec<GF2Int>>,
    x: int,
    y: int,
) -> bool {
    &&& after.len() == before.len()
    &&& after[x]@ == before[y]@
    &&& after[y]@ == before[x]@
    &&& forall|i: int|
        0 <= i < before.len() && i != x && i != y ==> (#[trigger] after[i])@ == before[i]@
}

/// Adds row `src` to row `dst` in both matrices.
fn add_row_pair(
    mat: &mut Vec<Vec<GF2Int>>,
    res: &mut Vec<Vec<GF2Int>>,
    dst: usize,
    src: usize,
    Ghost(a): Ghost<Seq<Seq<bool>>>,
)
    requires
        a.len() == old(mat).len(),
        square_rows(old(mat)@, a.len()),
        square_rows(old(res)@, a.len()),
        tracks(old(mat)@, old(res)@, a),
        dst < a.len(),
        src < a.len(),
    ensures
        row_added(old(mat)@, final(mat)@, dst as int, src as int),
        row_added(old(res)@, final(res)@, dst as int, src as int),
        square_rows(final(mat)@, a.len()),
        square_rows(final(res)@, a.len()),
        tracks(final(mat)@, final(res)@, a),
{
    let new_mat = add_rows(&mat[dst], &mat[src]);
    let new_res = add_rows(&res[dst], &res[src]);
    proof {
        lemma_row_times_add(row_bits(res[dst as int]@), row_bits(res[src as int]@), a, a.len());
        assert(row_bits(mat[dst as int]@) == row_times(row_bits(res[dst as int]@), a, a.len()));
        assert(row_bits(mat[src as int]@) == row_times(row_bits(res[src as int]@), a, a.len()));
    }
    let ghost old_mat = mat@;
    let ghost old_res = res@;
    mat.set(dst, new_mat);
    res.set(dst, new_res);
    proof {
        assert forall|i: int| 0 <= i < mat.len() implies row_bits((#[trigger] mat[i])@)
            == row_times(row_bits(res[i]@), a, a.len()) by {
            if i != dst {
                assert(mat[i] == old_mat[i]);
                assert(res[i] == old_res[i]);
            }
        }
    }
}

/// Exchanges rows `x` and `y` in both matrices.
fn swap_row_pair(
    mat: &mut Vec<Vec<GF2Int>>,
    res: &mut Vec<Vec<GF2Int>>,
    x: usize,
    y: usize,
    Ghost(a): Ghost<Seq<Seq<bool>>>,
)
    requires
        a.len() == old(mat).len(),
        square_rows(old(mat)@, a.len()),
        square_rows(old(res)@, a.len()),
        tracks(old(mat)@, old(res)@, a),
        x < a.len(),
        y < a.len(),
    ensures
        rows_swapped(old(mat)@, final(mat)@, x as int, y as int),
        rows_swapped(old(res)@, final(res)@, x as int, y as int),
        square_rows(final(mat)@, a.len()),
        square_rows(final(res)@, a.len()),
        tracks(final(mat)@, final(res)@, a),
{
    let mat_x = copy_row(&mat[x]);
    let mat_y = copy_row(&mat[y]);
    let res_x = copy_row(&res[x]);
    let res_y = copy_row(&res[y]);
    let ghost old_mat = mat@;
    let ghost old_res = res@;
    proof {
        assert(row_bits(old_mat[x as int]@) == row_times(row_bits(old_res[x as int]@), a, a.len()));
        assert(row_bits(old_mat[y as int]@) == row_times(row_bits(old_res[y as int]@), a, a.len()));
    }
    mat.set(x, mat_y);
    mat.set(y, mat_x);
    res.set(x, res_y);
    res.set(y, res_x);
    proof {
        assert forall|i: int| 0 <= i < mat.len() implies row_bits((#[trigger] mat[i])@)
            == row_times(row_bits(res[i]@), a, a.len()) by {
            if i != x && i != y {
                assert(mat[i] == old_mat[i]);
                assert(res[i] == old_res[i]);
            }
        }
    }
}

/// The truth value of the entry in row `r` and column `c`.
pub open spec fn ent(m: Seq<Vec<GF2Int>>, r: int, c: int) -> bool {
    m[r]@[c].bit()
}

/// The first `k` columns hold ones on the diagonal and zeros below it.
pub open spec fn echelon(m: Seq<Vec<GF2Int>>, k: int, n: int) -> bool {
    forall|r: int, c: int| 0 <= c < k && c <= r < n ==> #[trigger] ent(m, r, c) == (r == c)
}

/// The columns from `k` on are those of the identity.
pub open spec fn cleared(m: Seq<Vec<GF2Int>>, k: int, n: int) -> bool {
    forall|r: int, c: int| k <= c < n && 0 <= r < n ==> #[trigger] ent(m, r, c) == (r == c)
}

/// Every row of `rows` times the column `v` is zero; the column is
/// column 0 of `v`.
pub open spec fn kills(rows: Seq<Vec<GF2Int>>, v: Seq<Seq<bool>>) -> bool {
    forall|r: int|
        0 <= r < rows.len() ==> !dot_prefix(row_bits((#[trigger] rows[r])@), v, 0, rows.len())
}

/// Only the zero column is taken to zero by the rows.
pub open spec fn injective(rows: Seq<Vec<GF2Int>>) -> bool {
    forall|v: Seq<Seq<bool>>| #[trigger]
        kills(rows, v) ==> (forall|k: int| 0 <= k < rows.len() ==> !(#[trigger] v[k])[0])
}

/// The entries after a row was added to another.
pub proof fn lemma_added_entries(
    before: Seq<Vec<GF2Int>>,
    after: Seq<Vec<GF2Int>>,
    dst: int,
    src: int,
    n: nat,
)
    requires
        square_rows(before, n),
        row_added(before, after, dst, src),
        0 <= dst < n,
        0 <= src < n,
    ensures
        forall|r: int, c: int|
            0 <= r < n && 0 <= c < n ==> #[trigger] ent(after, r, c) == (if r == dst {
                ent(before, dst, c) != ent(before, src, c)
            } else {
                ent(before, r, c)
            }),
{
    assert forall|r: int, c: int| 0 <= r < n && 0 <= c < n implies #[trigger] ent(after, r, c) == (
    if r == dst {
        ent(before, dst, c) != ent(before, src, c)
    } else {
        ent(before, r, c)
    }) by {
        if r == dst {
            assert(row_bits(after[dst]@)[c] == row_add(
                row_bits(before[dst]@),
                row_bits(before[src]@),
            )[c]);
        } else {
            assert(after[r]@ == before[r]@);
        }
    }
}

/// The entries after two rows were exchanged.
pub proof fn lemma_swapped_entries(
    before: Seq<Vec<GF2Int>>,
    after: Seq<Vec<GF2Int>>,
    x: int,
    y: int,
    n: nat,
)
    requires
        square_rows(before, n),
        rows_swapped(before, after, x, y),
        0 <= x < n,
        0 <= y < n,
    ensures
        forall|r: int, c: int|
            0 <= r < n && 0 <= c < n ==> #[trigger] ent(after, r, c) == ent(
                before,
                if r == x {
                    y
                } else if r == y {
                    x
                } else {
                    r
                },
                c,
            ),
{
    assert forall|r: int, c: int| 0 <= r < n && 0 <= c < n implies #[trigger] ent(after, r, c)
        == ent(
        before,
        if r == x {
            y
        } else if r == y {
            x
        } else {
            r
        },
        c,
    ) by {
        if r != x && r != y {
            assert(after[r]@ == before[r]@);
        }
    }
}

/// The rows of the identity take only the zero column to zero.
pub proof fn lemma_injective_identity(rows: Seq<Vec<GF2Int>>, n: nat)
    requires
        square_rows(rows, n),
        forall|r: int, c: int| 0 <= r < n && 0 <= c < n ==> #[trigger] ent(rows, r, c) == (r == c),
    ensures
        injective(rows),
{
    assert forall|v: Seq<Seq<bool>>| #[trigger] kills(rows, v) implies (forall|k: int|
        0 <= k < rows.len() ==> !(#[trigger] v[k])[0]) by {
        assert forall|k: int| 0 <= k < rows.len() implies !(#[trigger] v[k])[0] by {
            let e = row_bits(rows[k]@);
            assert forall|c: int| 0 <= c < e.len() implies e[c] == (c == k) by {
                assert(ent(rows, k, c) == (k == c));
            }
            lemma_unit_dot(e, v, k, 0, n);
        }
    }
}

/// Adding one row to another keeps the rows injective.
pub proof fn lemma_injective_added(
    before: Seq<Vec<GF2Int>>,
    after: Seq<Vec<GF2Int>>,
    dst: int,
    src: int,
    n: nat,
)
    requires
        square_rows(before, n),
        row_added(before, after, dst, src),
        0 <= dst < n,
        0 <= src < n,
        dst != src,
        injective(before),
    ensures
        injective(after),
{
    assert forall|v: Seq<Seq<bool>>| #[trigger] kills(after, v) implies (forall|k: int|
        0 <= k < after.len() ==> !(#[trigger] v[k])[0]) by {
        assert forall|r: int| 0 <= r < before.len() implies !dot_prefix(
            row_bits((#[trigger] before[r])@),
            v,
            0,
            before.len(),
        ) by {
            assert(after[src]@ == before[src]@);
            assert(!dot_prefix(row_bits(after[src]@), v, 0, n));
            if r == dst {
                lemma_dot_add(row_bits(before[dst]@), row_bits(before[src]@), v, 0, n);
                assert(!dot_prefix(row_bits(after[dst]@), v, 0, n));
            } else {
                assert(after[r]@ == before[r]@);
                assert(!dot_prefix(row_bits(after[r]@), v, 0, n));
            }
        }
        assert(kills(before, v));
    }
}

/// Exchanging two rows keeps the rows injective.
pub proof fn lemma_injective_swapped(
    before: Seq<Vec<GF2Int>>,
    after: Seq<Vec<GF2Int>>,
    x: int,
    y: int,
    n: nat,
)
    requires
        square_rows(before, n),
        rows_swapped(before, after, x, y),
        0 <= x < n,
        0 <= y < n,
        injective(before),
    ensures
        injective(after),
{
    assert forall|v: Seq<Seq<bool>>| #[trigger] kills(after, v) implies (forall|k: int|
        0 <= k < after.len() ==> !(#[trigger] v[k])[0]) by {
        assert forall|r: int| 0 <= r < before.len() implies !dot_prefix(
            row_bits((#[trigger] before[r])@),
            v,
            0,
            before.len(),
        ) by {
            if r == x {
                assert(!dot_prefix(row_bits(after[y]@), v, 0, n));
            } else if r == y {
                assert(!dot_prefix(row_bits(after[x]@), v, 0, n));
            } else {
                assert(after[r]@ == before[r]@);
                assert(!dot_prefix(row_bits(after[r]@), v, 0, n));
            }
        }
        assert(kills(before, v));
    }
}

/// A column that the rows from `r` on take to zero, with a one at place
/// `i`: it exists where the first `i` columns are in echelon form and
/// column `i` holds no one from row `i` on.
pub proof fn lemma_kernel_column(mat: Seq<Vec<GF2Int>>, i: int, n: nat, r: int) -> (u: Seq<
    Seq<bool>,
>)
    requires
        square_rows(mat, n),
        0 <= r <= i < n,
        echelon(mat, i, n as int),
        forall|q: int| i <= q < n ==> !#[trigger] ent(mat, q, i),
    ensures
        u.len() == n,
        u[i][0],
        forall|k: int| 0 <= k < r ==> !(#[trigger] u[k])[0],
        forall|q: int| r <= q < n ==> !dot_prefix(row_bits((#[trigger] mat[q])@), u, 0, n),
    decreases i - r,
{
    if r == i {
        let u = Seq::new(n, |k: int| seq![k == i]);
        let f = |k: int| k == i;
        assert forall|q: int| r <= q < n implies !dot_prefix(
            row_bits((#[trigger] mat[q])@),
            u,
            0,
            n,
        ) by {
            let a = row_bits(mat[q]@);
            lemma_dot_as_column(a, u, 0, f, n);
            lemma_dot_column_single(a, f, i, n);
            assert(a[i] == ent(mat, q, i));
        }
        u
    } else {
        let u0 = lemma_kernel_column(mat, i, n, r + 1);
        let s = dot_prefix(row_bits(mat[r]@), u0, 0, n);
        let u = u0.update(r, seq![s]);
        assert forall|q: int| r <= q < n implies !dot_prefix(
            row_bits((#[trigger] mat[q])@),
            u,
            0,
            n,
        ) by {
            let a = row_bits(mat[q]@);
            lemma_dot_update(a, u0, r, seq![s], 0, n);
            assert(a[r] == ent(mat, q, r));
            assert(ent(mat, q, r) == (q == r));
            assert(!u0[r][0]);
            if q > r {
                assert(!dot_prefix(row_bits(mat[q]@), u0, 0, n));
            }
        }
        u
    }
}

/// A matrix whose elimination finds no pivot in column `i` has no
/// inverse: a column other than zero is taken to zero by it.
pub proof fn lemma_no_pivot(
    a: Seq<Seq<bool>>,
    mat: Seq<Vec<GF2Int>>,
    res: Seq<Vec<GF2Int>>,
    x: Seq<Seq<bool>>,
    i: int,
    n: nat,
)
    requires
        a.len() == n,
        forall|k: int| 0 <= k < n ==> (#[trigger] a[k]).len() == n,
        x.len() == n,
        forall|k: int| 0 <= k < n ==> (#[trigger] x[k]).len() == n,
        square_rows(mat, n),
        square_rows(res, n),
        tracks(mat, res, a),
        injective(res),
        0 <= i < n,
        echelon(mat, i, n as int),
        forall|q: int| i <= q < n ==> !#[trigger] ent(mat, q, i),
    ensures
        mat_mul(x, a, n) != identity(n),
{
    assert_by_contradiction!(mat_mul(x, a, n) != identity(n), {
    let u = lemma_kernel_column(mat, i, n, 0);
    let w = mat_mul(a, u, n);
    assert forall|r: int| 0 <= r < res.len() implies !dot_prefix(
        row_bits((#[trigger] res[r])@),
        w,
        0,
        res.len(),
    ) by {
        lemma_row_assoc(row_bits(res[r]@), a, u, n, 0);
        assert(row_bits(mat[r]@) == row_times(row_bits(res[r]@), a, a.len()));
        assert(!dot_prefix(row_bits(mat[r]@), u, 0, n));
    }
    assert(kills(res, w));
    assert forall|k: int| 0 <= k < n implies !(#[trigger] w[k])[0] by {}
    lemma_row_assoc(x[i], a, u, n, 0);
    lemma_dot_zero_column(x[i], w, 0, n);
    assert(mat_mul(x, a, n)[i] == row_times(x[i], a, n));
    lemma_unit_dot(identity(n)[i], u, i, 0, n);
    assert(false);
    });
}

/// Tells whether the rows hold the identity matrix.
fn rows_are_identity(mat: &Vec<Vec<GF2Int>>, n: usize) -> (r: bool)
    requires
        square_rows(mat@, n as nat),
    ensures
        r == (forall|i: int, j: int| 0 <= i < n && 0 <= j < n ==> mat[i][j].bit() == (i == j)),
{
    let mut i: usize = 0;
    while i < n
        invariant
            square_rows(mat@, n as nat),
            i <= n,
            forall|a: int, b: int| 0 <= a < i && 0 <= b < n ==> mat[a][b].bit() == (a == b),
        decreases n - i,
    {
        let mut j: usize = 0;
        while j < n
            invariant
                square_rows(mat@, n as nat),
                i < n,
                j <= n,
                forall|b: int| 0 <= b < j ==> mat[i as int][b].bit() == (i == b),
            decreases n - j,
        {
            if mat[i][j].is_set() != (i == j) {
                return false;
            }
            j = j + 1;
        }
        i = i + 1;
    }
    true
}

/// Inversion of a matrix.
pub trait MatInverse: Sized {
    /// The shape that `inverse` accepts.
    spec fn invertible_shape(&self) -> bool;

    /// `self` times `other` is the identity, and so is `other` times
    /// `self`.
    spec fn inverse_of(&self, other: &Self) -> bool;

    /// The inverse of the matrix, or `SingularMatrix`.
    fn inverse(self) -> (r: Result<Self, Error>)
        requires
            self.invertible_shape(),
        ensures
            r matches Ok(inv) ==> inv.inverse_of(&self),
            r matches Err(e) ==> e == Error::SingularMatrix,
            (exists|inv: Self| inv.inverse_of(&self)) ==> r is Ok,
    ;
}

impl MatInverse for GF2Matrix {
    open spec fn invertible_shape(&self) -> bool {
        self.wf() && self.height == self.width
    }

    open spec fn inverse_of(&self, other: &Self) -> bool {
        &&& self.wf()
        &&& self.height == other.height
        &&& self.width == other.height
        &&& mat_mul(self@, other@, other.height as nat) == identity(other.height as nat)
        &&& mat_mul(other@, self@, other.height as nat) == identity(other.height as nat)
    }

    /// Gauss-Jordan elimination: every row operation on the matrix is
    /// repeated on a matrix that starts as the identity. A column without
    /// a pivot shows that there is no inverse; where every column has
    /// one, the two sweeps leave the identity, and what comes out is
    /// multiplied with the matrix once more before it is returned.
    fn inverse(self) -> (r: Result<Self, Error>) {
        let n: usize = self.height;
        let ghost a = self@;
        let copy = self.to_owned();
        let unit = GF2Matrix::eye(n);
        let mut mat: Vec<Vec<GF2Int>> = copy.data;
        let mut res: Vec<Vec<GF2Int>> = unit.data;
        proof {
            assert forall|i: int| 0 <= i < n implies row_bits((#[trigger] mat[i])@) == row_times(
                row_bits(res[i]@),
                a,
                a.len(),
            ) by {
                let e = row_bits(res[i]@);
                assert(e =~= identity(n as nat)[i]) by {
                    assert(unit@[i] == identity(n as nat)[i]);
                }
                assert forall|c: int| 0 <= c < n implies row_bits(mat[i]@)[c] == row_times(
                    e,
                    a,
                    a.len(),
                )[c] by {
                    lemma_unit_dot(e, a, i, c, n as nat);
                    assert(a[i] == row_bits(self.data[i]@));
                }
                assert(row_bits(mat[i]@) =~= row_times(e, a, a.len()));
            }
        }
        proof {
            assert forall|r: int, c: int| 0 <= r < n && 0 <= c < n implies #[trigger] ent(
                res@,
                r,
                c,
            ) == (r == c) by {
                assert(unit@[r][c] == identity(n as nat)[r][c]);
            }
            lemma_injective_identity(res@, n as nat);
        }
        let mut i: usize = 0;
        while i < n
            invariant
                a == self@,
                self.wf(),
                self.height == n,
                self.width == n,
                a.len() == n,
                square_rows(mat@, n as nat),
                square_rows(res@, n as nat),
                tracks(mat@, res@, a),
                injective(res@),
                echelon(mat@, i as int, n as int),
                i <= n,
            decreases n - i,
        {
            let mut is_found = false;
            let mut j: usize = i;
            while j < n
                invariant
                    a.len() == n,
                    square_rows(mat@, n as nat),
                    square_rows(res@, n as nat),
                    tracks(mat@, res@, a),
                    injective(res@),
                    echelon(mat@, i as int, n as int),
                    i <= j <= n,
                    i < n,
                    is_found ==> j > i && ent(mat@, i as int, i as int),
                    is_found ==> forall|r: int| i < r < j ==> !#[trigger] ent(mat@, r, i as int),
                    !is_found ==> forall|r: int| i <= r < j ==> !#[trigger] ent(mat@, r, i as int),
                decreases n - j,
            {
                let ghost old_mat = mat@;
                let ghost old_res = res@;
                if mat[j][i].is_set() {
                    assert(ent(old_mat, j as int, i as int));
                    if is_found {
                        add_row_pair(&mut mat, &mut res, j, i, Ghost(a));
                        proof {
                            lemma_added_entries(old_mat, mat@, j as int, i as int, n as nat);
                            lemma_injective_added(old_res, res@, j as int, i as int, n as nat);
                        }
                    } else {
                        is_found = true;
                        swap_row_pair(&mut mat, &mut res, j, i, Ghost(a));
                        proof {
                            lemma_swapped_entries(old_mat, mat@, j as int, i as int, n as nat);
                            lemma_injective_swapped(old_res, res@, j as int, i as int, n as nat);
                        }
                    }
                } else {
                    assert(!ent(old_mat, j as int, i as int));
                }
                j = j + 1;
            }
            if !is_found {
                proof {
                    if exists|inv: GF2Matrix| inv.inverse_of(&self) {
                        let x = choose|inv: GF2Matrix| inv.inverse_of(&self);
                        lemma_no_pivot(a, mat@, res@, x@, i as int, n as nat);
                    }
                }
                return Err(Error::SingularMatrix);
            }
            i = i + 1;
        }
        let mut i: usize = n;
        while i > 1
            invariant
                a.len() == n,
                square_rows(mat@, n as nat),
                square_rows(res@, n as nat),
                tracks(mat@, res@, a),
                echelon(mat@, n as int, n as int),
                cleared(mat@, i as int, n as int),
                i <= n,
            decreases i,
        {
            i = i - 1;
            let mut j: usize = i;
            while j > 0
                invariant
                    a.len() == n,
                    square_rows(mat@, n as nat),
                    square_rows(res@, n as nat),
                    tracks(mat@, res@, a),
                    echelon(mat@, n as int, n as int),
                    cleared(mat@, i + 1, n as int),
                    forall|r: int| j <= r < i ==> !#[trigger] ent(mat@, r, i as int),
                    j <= i < n,
                decreases j,
            {
                j = j - 1;
                let ghost old_mat = mat@;
                if mat[j][i].is_set() {
                    assert(ent(old_mat, j as int, i as int));
                    add_row_pair(&mut mat, &mut res, j, i, Ghost(a));
                    proof {
                        lemma_added_entries(old_mat, mat@, j as int, i as int, n as nat);
                        assert forall|c: int| 0 <= c < n implies ent(old_mat, i as int, c) == (c
                            == i) by {}
                    }
                } else {
                    assert(!ent(old_mat, j as int, i as int));
                }
            }
        }
        let inv = GF2Matrix { height: n, width: n, data: res };
        proof {
            assert forall|r: int, c: int| 0 <= r < n && 0 <= c < n implies ent(mat@, r, c) == (r
                == c) by {}
            assert forall|i: int| 0 <= i < n implies mat_mul(inv@, a, n as nat)[i] == identity(
                n as nat,
            )[i] by {
                assert(row_bits(mat[i]@) == row_times(row_bits(res[i]@), a, a.len()));
                assert forall|c: int| 0 <= c < n implies row_bits(mat[i]@)[c] == identity(
                    n as nat,
                )[i][c] by {
                    assert(ent(mat@, i, c) == (i == c));
                }
                assert(row_bits(mat[i]@) =~= identity(n as nat)[i]);
            }
            assert(mat_mul(inv@, a, n as nat) =~= identity(n as nat));
        }
        let back = self.dot(&inv);
        if !rows_are_identity(&back.data, n) {
            proof {
                if exists|x: GF2Matrix| x.inverse_of(&self) {
                    let x = choose|x: GF2Matrix| x.inverse_of(&self);
                    lemma_inverse_unique(a, inv@, x@, n as nat);
                    assert forall|i: int, j: int| 0 <= i < n && 0 <= j < n implies back.data[i][j].bit()
                        == (i == j) by {
                        assert(back@[i][j] == identity(n as nat)[i][j]);
                    }
                }
            }
            return Err(Error::SingularMatrix);
        }
        proof {
            assert forall|i: int| 0 <= i < n implies back@[i] == identity(n as nat)[i] by {
                assert(back@[i] =~= identity(n as nat)[i]);
            }
            assert(back@ =~= identity(n as nat));
        }
        Ok(inv)
    }
}

/// The product of a unit row with a matrix picks out one row of it.
pub proof fn lemma_unit_dot(e: Seq<bool>, m: Seq<Seq<bool>>, i: int, c: int, n: nat)
    requires
        n <= e.len(),
        forall|k: int| 0 <= k < e.len() ==> e[k] == (k == i),
    ensures
        dot_prefix(e, m, c, n) == (0 <= i < n && m[i][c]),
    decreases n,
{
    if n > 0 {
        lemma_unit_dot(e, m, i, c, (n - 1) as nat);
    }
}


/// The 64 by 64 matrix that shifts a row of 64 bits up by `n` places:
/// a one in row `i` and column `i + n`.
pub open spec fn shl_matrix(n: nat) -> Seq<Seq<bool>> {
    Seq::new(64, |i: int| Seq::new(64, |j: int| j == i + n))
}

/// The 64 by 64 matrix that rotates a row of 64 bits up by `n` places:
/// a one in row `i` and column `(i + n) mod 64`.
pub open spec fn rotl_matrix(n: nat) -> Seq<Seq<bool>> {
    Seq::new(64, |i: int| Seq::new(64, |j: int| j == (i + n) % 64))
}

/// The `total` by `size` matrix whose rows from `position` on hold the
/// identity, all others being zero.
pub open spec fn injection(position: nat, size: nat, total: nat) -> Seq<Seq<bool>> {
    Seq::new(total, |i: int| Seq::new(size, |j: int| i == position + j))
}

/// Builds the matrix of a shift by `n` places.
pub fn mat_shl(n: usize) -> (r: GF2Matrix)
    ensures
        r.wf(),
        r.height == 64,
        r.width == 64,
        r@ == shl_matrix(n as nat),
{
    let mut data: Vec<Vec<GF2Int>> = Vec::new();
    let mut i: usize = 0;
    while i < 64
        invariant
            i <= 64,
            data.len() == i,
            forall|a: int| 0 <= a < i ==> (#[trigger] data[a]).len() == 64 && canonical(data[a]@),
            forall|a: int, b: int|
                0 <= a < i && 0 <= b < 64 ==> (#[trigger] data[a][b]).bit() == (b == a + n),
        decreases 64 - i,
    {
        let mut row: Vec<GF2Int> = Vec::new();
        let mut j: usize = 0;
        while j < 64
            invariant
                i < 64,
                j <= 64,
                row.len() == j,
                canonical(row@),
                forall|b: int| 0 <= b < j ==> (#[trigger] row[b]).bit() == (b == i + n),
            decreases 64 - j,
        {
            row.push(GF2Int::from_bool(j >= i && j - i == n));
            j = j + 1;
        }
        data.push(row);
        i = i + 1;
    }
    let r = GF2Matrix { height: 64, width: 64, data };
    assert(r@ =~~= shl_matrix(n as nat));
    r
}

/// Builds the matrix of a rotation by `n` places.
pub fn mat_rotl(n: usize) -> (r: GF2Matrix)
    ensures
        r.wf(),
        r.height == 64,
        r.width == 64,
        r@ == rotl_matrix(n as nat),
{
    let shift: usize = n % 64;
    let mut data: Vec<Vec<GF2Int>> = Vec::new();
    let mut i: usize = 0;
    while i < 64
        invariant
            shift == n % 64,
            i <= 64,
            data.len() == i,
            forall|a: int| 0 <= a < i ==> (#[trigger] data[a]).len() == 64 && canonical(data[a]@),
            forall|a: int, b: int|
                0 <= a < i && 0 <= b < 64 ==> (#[trigger] data[a][b]).bit() == (b == (a + n) % 64),
        decreases 64 - i,
    {
        let mut row: Vec<GF2Int> = Vec::new();
        let mut j: usize = 0;
        let target: usize = (i + shift) % 64;
        assert(target == (i + n) % 64) by {
            vstd::arithmetic::div_mod::lemma_add_mod_noop(i as int, n as int, 64);
        }
        while j < 64
            invariant
                i < 64,
                j <= 64,
                row.len() == j,
                canonical(row@),
                target == (i + n) % 64,
                forall|b: int| 0 <= b < j ==> (#[trigger] row[b]).bit() == (b == (i + n) % 64),
            decreases 64 - j,
        {
            row.push(GF2Int::from_bool(j == target));
            j = j + 1;
        }
        data.push(row);
        i = i + 1;
    }
    let r = GF2Matrix { height: 64, width: 64, data };
    assert(r@ =~~= rotl_matrix(n as nat));
    r
}

/// A matrix under construction: one block of columns of a transition
/// matrix, as a function of the whole state.
#[derive(Debug)]
pub struct MatBuilder {
    pub inner_matrix: GF2Matrix,
}

impl MatBuilder {
    /// The matrix is rectangular and 64 columns wide, so that shifts and
    /// rotations of 64-bit words apply to it.
    pub open spec fn word_wide(&self) -> bool {
        self.inner_matrix.wf() && self.inner_matrix.width == 64
    }

    /// The block that selects the `portion_size` state bits from
    /// `portion_position` on, out of `total_state_size`.
    pub fn new(portion_position: usize, portion_size: usize, total_state_size: usize) -> (r:
        MatBuilder)
        requires
            portion_position + portion_size <= total_state_size,
        ensures
            r.inner_matrix.wf(),
            r.inner_matrix.height == total_state_size,
            r.inner_matrix.width == portion_size,
            r.inner_matrix@ == injection(
                portion_position as nat,
                portion_size as nat,
                total_state_size as nat,
            ),
    {
        let mut data: Vec<Vec<GF2Int>> = Vec::new();
        let mut i: usize = 0;
        while i < total_state_size
            invariant
                i <= total_state_size,
                data.len() == i,
                forall|a: int| 0 <= a < i ==> (#[trigger] data[a]).len() == portion_size && canonical(data[a]@),
                forall|a: int, b: int|
                    0 <= a < i && 0 <= b < portion_size ==> (#[trigger] data[a][b]).bit() == (a
                        == portion_position + b),
            decreases total_state_size - i,
        {
            let mut row: Vec<GF2Int> = Vec::new();
            let mut j: usize = 0;
            while j < portion_size
                invariant
                    i < total_state_size,
                    j <= portion_size,
                    row.len() == j,
                    canonical(row@),
                    forall|b: int|
                        0 <= b < j ==> (#[trigger] row[b]).bit() == (i == portion_position + b),
                decreases portion_size - j,
            {
                row.push(GF2Int::from_bool(i >= portion_position && i - portion_position == j));
                j = j + 1;
            }
            data.push(row);
            i = i + 1;
        }
        let inner_matrix = GF2Matrix { height: total_state_size, width: portion_size, data };
        assert(inner_matrix@ =~~= injection(
            portion_position as nat,
            portion_size as nat,
            total_state_size as nat,
        ));
        MatBuilder { inner_matrix }
    }

    /// Rotates the 64 columns up by `rhs` places, in place.
    pub fn rotate_left_assign(&mut self, rhs: usize)
        requires
            old(self).word_wide(),
        ensures
            final(self).word_wide(),
            final(self).inner_matrix.height == old(self).inner_matrix.height,
            final(self).inner_matrix@ == mat_mul(
                old(self).inner_matrix@,
                rotl_matrix(rhs as nat),
                64,
            ),
    {
        self.inner_matrix = self.inner_matrix.dot(&mat_rotl(rhs));
    }

    /// The builder with its 64 columns rotated up by `rhs` places.
    pub fn rotate_left(&self, rhs: usize) -> (r: MatBuilder)
        requires
            self.word_wide(),
        ensures
            r.word_wide(),
            r.inner_matrix.height == self.inner_matrix.height,
            r.inner_matrix@ == mat_mul(self.inner_matrix@, rotl_matrix(rhs as nat), 64),
    {
        MatBuilder { inner_matrix: self.inner_matrix.dot(&mat_rotl(rhs)) }
    }

    /// An independent copy of the builder.
    pub fn to_owned(&self) -> (r: MatBuilder)
        requires
            self.inner_matrix.wf(),
        ensures
            r.inner_matrix.wf(),
            r.inner_matrix.height == self.inner_matrix.height,
            r.inner_matrix.width == self.inner_matrix.width,
            r.inner_matrix@ == self.inner_matrix@,
    {
        MatBuilder { inner_matrix: self.inner_matrix.to_owned() }
    }

    /// Adds `rhs` to the builder, entry by entry.
    pub fn bitxor_assign(&mut self, rhs: MatBuilder)
        requires
            old(self).inner_matrix.wf(),
            rhs.inner_matrix.wf(),
            old(self).inner_matrix.height == rhs.inner_matrix.height,
            old(self).inner_matrix.width == rhs.inner_matrix.width,
        ensures
            final(self).inner_matrix.wf(),
            final(self).inner_matrix.height == old(self).inner_matrix.height,
            final(self).inner_matrix.width == old(self).inner_matrix.width,
            final(self).inner_matrix@ == mat_add(old(self).inner_matrix@, rhs.inner_matrix@),
    {
        self.inner_matrix = self.inner_matrix.add(&rhs.inner_matrix);
    }

    /// The entrywise sum of two builders.
    pub fn bitxor(self, rhs: MatBuilder) -> (r: MatBuilder)
        requires
            self.inner_matrix.wf(),
            rhs.inner_matrix.wf(),
            self.inner_matrix.height == rhs.inner_matrix.height,
            self.inner_matrix.width == rhs.inner_matrix.width,
        ensures
            r.inner_matrix.wf(),
            r.inner_matrix.height == self.inner_matrix.height,
            r.inner_matrix.width == self.inner_matrix.width,
            r.inner_matrix@ == mat_add(self.inner_matrix@, rhs.inner_matrix@),
    {
        MatBuilder { inner_matrix: self.inner_matrix.add(&rhs.inner_matrix) }
    }

    /// The builder with its 64 columns shifted up by `rhs` places.
    pub fn shl(self, rhs: usize) -> (r: MatBuilder)
        requires
            self.word_wide(),
        ensures
            r.word_wide(),
            r.inner_matrix.height == self.inner_matrix.height,
            r.inner_matrix@ == mat_mul(self.inner_matrix@, shl_matrix(rhs as nat), 64),
    {
        MatBuilder { inner_matrix: self.inner_matrix.dot(&mat_shl(rhs)) }
    }
}

} // verus!
