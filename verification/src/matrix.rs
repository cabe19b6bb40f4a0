//! Dense matrices over GF(2).

use crate::gf2int::GF2Int;
use vstd::prelude::*;

verus! {

/// The sum over `k < n` of `a[k] * b[k][j]`: the head of the product of
/// the row `a` with column `j` of `b`.
pub open spec fn dot_prefix(a: Seq<bool>, b: Seq<Seq<bool>>, j: int, n: nat) -> bool
    decreases n,
{
    if n == 0 {
        false
    } else {
        dot_prefix(a, b, j, (n - 1) as nat) != (a[n - 1] && b[n - 1][j])
    }
}

/// The product of the row `a` with the matrix `b` of `w` columns.
pub open spec fn row_times(a: Seq<bool>, b: Seq<Seq<bool>>, w: nat) -> Seq<bool> {
    Seq::new(w, |j: int| dot_prefix(a, b, j, b.len()))
}

/// The product of `a` with the matrix `b` of `w` columns.
pub open spec fn mat_mul(a: Seq<Seq<bool>>, b: Seq<Seq<bool>>, w: nat) -> Seq<Seq<bool>> {
    Seq::new(a.len(), |i: int| row_times(a[i], b, w))
}

/// A product is additive in its left factor.
pub proof fn lemma_dot_add(a: Seq<bool>, b: Seq<bool>, m: Seq<Seq<bool>>, c: int, n: nat)
    requires
        n <= a.len(),
        a.len() == b.len(),
    ensures
        dot_prefix(row_add(a, b), m, c, n) == (dot_prefix(a, m, c, n) != dot_prefix(b, m, c, n)),
    decreases n,
{
    if n > 0 {
        lemma_dot_add(a, b, m, c, (n - 1) as nat);
    }
}

/// The product of a sum of rows with a matrix is the sum of the products.
pub proof fn lemma_row_times_add(a: Seq<bool>, b: Seq<bool>, m: Seq<Seq<bool>>, w: nat)
    requires
        a.len() == m.len(),
        b.len() == m.len(),
    ensures
        row_times(row_add(a, b), m, w) == row_add(row_times(a, m, w), row_times(b, m, w)),
{
    assert forall|c: int| 0 <= c < w implies row_times(row_add(a, b), m, w)[c] == row_add(
        row_times(a, m, w),
        row_times(b, m, w),
    )[c] by {
        lemma_dot_add(a, b, m, c, m.len());
    }
    assert(row_times(row_add(a, b), m, w) =~= row_add(row_times(a, m, w), row_times(b, m, w)));
}

/// The entrywise sum of two rows.
pub open spec fn row_add(a: Seq<bool>, b: Seq<bool>) -> Seq<bool> {
    Seq::new(a.len(), |j: int| a[j] != b[j])
}

/// The product of a row of zeros with a matrix is zero.
pub proof fn lemma_dot_zero(a: Seq<bool>, m: Seq<Seq<bool>>, c: int, n: nat)
    requires
        n <= a.len(),
        forall|k: int| 0 <= k < n ==> !a[k],
    ensures
        !dot_prefix(a, m, c, n),
    decreases n,
{
    if n > 0 {
        lemma_dot_zero(a, m, c, (n - 1) as nat);
    }
}

/// The row `a` times the scalar `s`.
pub open spec fn row_scale(s: bool, a: Seq<bool>) -> Seq<bool> {
    Seq::new(a.len(), |k: int| s && a[k])
}

/// A scalar can be taken out of a product.
pub proof fn lemma_dot_scale(s: bool, a: Seq<bool>, m: Seq<Seq<bool>>, c: int, n: nat)
    requires
        n <= a.len(),
    ensures
        dot_prefix(row_scale(s, a), m, c, n) == (s && dot_prefix(a, m, c, n)),
    decreases n,
{
    if n > 0 {
        lemma_dot_scale(s, a, m, c, (n - 1) as nat);
    }
}

/// The product of a row with the identity is the row.
pub proof fn lemma_dot_identity(a: Seq<bool>, size: nat, c: int, n: nat)
    requires
        n <= size,
        0 <= c < size,
    ensures
        dot_prefix(a, identity(size), c, n) == (c < n && a[c]),
    decreases n,
{
    if n > 0 {
        lemma_dot_identity(a, size, c, (n - 1) as nat);
    }
}

/// The product of the first `p` entries of `w` with the first `p` rows
/// of `r`, which has `n` columns.
pub open spec fn partial_row(w: Seq<bool>, r: Seq<Seq<bool>>, n: nat, p: nat) -> Seq<bool> {
    Seq::new(n, |k: int| dot_prefix(w, r, k, p))
}

/// The head of the law below: the first `p` entries of `w` only.
pub proof fn lemma_row_assoc_prefix(
    w: Seq<bool>,
    r: Seq<Seq<bool>>,
    b: Seq<Seq<bool>>,
    n: nat,
    c: int,
    p: nat,
)
    requires
        p <= n,
        0 <= c < n,
        w.len() == n,
        r.len() == n,
        forall|i: int| 0 <= i < n ==> (#[trigger] r[i]).len() == n,
        b.len() == n,
    ensures
        dot_prefix(partial_row(w, r, n, p), b, c, n) == dot_prefix(w, mat_mul(r, b, n), c, p),
    decreases p,
{
    if p == 0 {
        lemma_dot_zero(partial_row(w, r, n, 0), b, c, n);
    } else {
        let q = (p - 1) as nat;
        lemma_row_assoc_prefix(w, r, b, n, c, q);
        let scaled = row_scale(w[q as int], r[q as int]);
        assert(partial_row(w, r, n, p) =~= row_add(partial_row(w, r, n, q), scaled));
        lemma_dot_add(partial_row(w, r, n, q), scaled, b, c, n);
        lemma_dot_scale(w[q as int], r[q as int], b, c, n);
        assert(mat_mul(r, b, n)[q as int] == row_times(r[q as int], b, n));
        assert(row_times(r[q as int], b, n)[c] == dot_prefix(r[q as int], b, c, n));
    }
}

/// A row times a product of two square matrices of size `n` is the row
/// times the first matrix, times the second.
pub proof fn lemma_row_assoc(w: Seq<bool>, r: Seq<Seq<bool>>, b: Seq<Seq<bool>>, n: nat, c: int)
    requires
        0 <= c < n,
        w.len() == n,
        r.len() == n,
        forall|i: int| 0 <= i < n ==> (#[trigger] r[i]).len() == n,
        b.len() == n,
    ensures
        dot_prefix(row_times(w, r, n), b, c, n) == dot_prefix(w, mat_mul(r, b, n), c, n),
{
    lemma_row_assoc_prefix(w, r, b, n, c, n);
    assert(partial_row(w, r, n, n) =~= row_times(w, r, n));
}

/// The sum over `i < n` of `v[i] * f(i)`: the head of the product of
/// the row `v` with a column given as a function.
pub open spec fn dot_column(v: Seq<bool>, f: spec_fn(int) -> bool, n: nat) -> bool
    decreases n,
{
    if n == 0 {
        false
    } else {
        dot_column(v, f, (n - 1) as nat) != (v[n - 1] && f(n - 1))
    }
}

/// The product with a column of a matrix is the product with that
/// column as a function.
pub proof fn lemma_dot_as_column(
    v: Seq<bool>,
    m: Seq<Seq<bool>>,
    c: int,
    f: spec_fn(int) -> bool,
    n: nat,
)
    requires
        forall|i: int| 0 <= i < n ==> #[trigger] f(i) == m[i][c],
    ensures
        dot_prefix(v, m, c, n) == dot_column(v, f, n),
    decreases n,
{
    if n > 0 {
        lemma_dot_as_column(v, m, c, f, (n - 1) as nat);
    }
}

/// The product with a column that holds a single one picks an entry of
/// the row.
pub proof fn lemma_dot_column_single(v: Seq<bool>, f: spec_fn(int) -> bool, a: int, n: nat)
    requires
        forall|i: int| 0 <= i < n ==> #[trigger] f(i) == (i == a),
    ensures
        dot_column(v, f, n) == (0 <= a < n && v[a]),
    decreases n,
{
    if n > 0 {
        lemma_dot_column_single(v, f, a, (n - 1) as nat);
    }
}

/// The product with a sum of two columns is the sum of the products.
pub proof fn lemma_dot_column_add(
    v: Seq<bool>,
    f: spec_fn(int) -> bool,
    g: spec_fn(int) -> bool,
    h: spec_fn(int) -> bool,
    n: nat,
)
    requires
        forall|i: int| 0 <= i < n ==> #[trigger] f(i) == (g(i) != h(i)),
    ensures
        dot_column(v, f, n) == (dot_column(v, g, n) != dot_column(v, h, n)),
    decreases n,
{
    if n > 0 {
        lemma_dot_column_add(v, f, g, h, (n - 1) as nat);
    }
}

/// The product of a row with a column of zeros is zero.
pub proof fn lemma_dot_zero_column(a: Seq<bool>, m: Seq<Seq<bool>>, c: int, n: nat)
    requires
        forall|k: int| 0 <= k < n ==> !(#[trigger] m[k])[c],
    ensures
        !dot_prefix(a, m, c, n),
    decreases n,
{
    if n > 0 {
        lemma_dot_zero_column(a, m, c, (n - 1) as nat);
    }
}

/// Replacing row `p` of the matrix changes a product by the term of
/// that row.
pub proof fn lemma_dot_update(
    a: Seq<bool>,
    m: Seq<Seq<bool>>,
    p: int,
    row: Seq<bool>,
    c: int,
    n: nat,
)
    requires
        0 <= p < m.len(),
        n <= m.len(),
    ensures
        dot_prefix(a, m.update(p, row), c, n) == (dot_prefix(a, m, c, n) != (p < n && a[p] && (
        row[c] != m[p][c]))),
    decreases n,
{
    if n > 0 {
        lemma_dot_update(a, m, p, row, c, (n - 1) as nat);
    }
}

/// A left inverse and a right inverse of one square matrix are the same
/// matrix.
pub proof fn lemma_inverse_unique(
    a: Seq<Seq<bool>>,
    l: Seq<Seq<bool>>,
    x: Seq<Seq<bool>>,
    n: nat,
)
    requires
        a.len() == n,
        l.len() == n,
        x.len() == n,
        forall|i: int| 0 <= i < n ==> (#[trigger] a[i]).len() == n,
        forall|i: int| 0 <= i < n ==> (#[trigger] l[i]).len() == n,
        forall|i: int| 0 <= i < n ==> (#[trigger] x[i]).len() == n,
        mat_mul(l, a, n) == identity(n),
        mat_mul(a, x, n) == identity(n),
    ensures
        l == x,
{
    assert forall|r: int| 0 <= r < n implies l[r] == x[r] by {
        assert forall|c: int| 0 <= c < n implies l[r][c] == x[r][c] by {
            lemma_row_assoc(l[r], a, x, n, c);
            lemma_dot_identity(l[r], n, c, n);
            assert(mat_mul(l, a, n)[r] == row_times(l[r], a, n));
            let unit = identity(n)[r];
            lemma_dot_as_column(unit, x, c, |k: int| x[k][c], n);
            lemma_unit_row(unit, x, r, c, n);
        }
        assert(l[r] =~= x[r]);
    }
    assert(l =~= x);
}

/// The product of a unit row with a matrix picks out one row of it.
pub proof fn lemma_unit_row(e: Seq<bool>, m: Seq<Seq<bool>>, i: int, c: int, n: nat)
    requires
        n <= e.len(),
        forall|k: int| 0 <= k < e.len() ==> e[k] == (k == i),
    ensures
        dot_prefix(e, m, c, n) == (0 <= i < n && m[i][c]),
    decreases n,
{
    if n > 0 {
        lemma_unit_row(e, m, i, c, (n - 1) as nat);
    }
}

/// The entrywise sum of two matrices of one shape.
pub open spec fn mat_add(a: Seq<Seq<bool>>, b: Seq<Seq<bool>>) -> Seq<Seq<bool>> {
    Seq::new(a.len(), |i: int| row_add(a[i], b[i]))
}

/// The `n` by `n` identity.
pub open spec fn identity(n: nat) -> Seq<Seq<bool>> {
    Seq::new(n, |i: int| Seq::new(n, |j: int| i == j))
}

/// The `h` by `w` matrix of zeros.
pub open spec fn zero_matrix(h: nat, w: nat) -> Seq<Seq<bool>> {
    Seq::new(h, |i: int| Seq::new(w, |j: int| false))
}

/// Rows `r0..r1` and columns `c0..c1` of `a`.
pub open spec fn block(a: Seq<Seq<bool>>, r0: int, r1: int, c0: int, c1: int) -> Seq<Seq<bool>> {
    Seq::new((r1 - r0) as nat, |i: int| Seq::new((c1 - c0) as nat, |j: int| a[r0 + i][c0 + j]))
}

/// `a` and `b` side by side; `wa` and `wb` are their widths.
pub open spec fn beside(a: Seq<Seq<bool>>, b: Seq<Seq<bool>>, wa: nat, wb: nat) -> Seq<Seq<bool>> {
    Seq::new(
        a.len(),
        |i: int|
            Seq::new(
                wa + wb,
                |j: int|
                    if j < wa {
                        a[i][j]
                    } else {
                        b[i][j - wa]
                    },
            ),
    )
}

/// Every element of the row is one of the two canonical bytes.
pub open spec fn canonical(row: Seq<GF2Int>) -> bool {
    forall|j: int| 0 <= j < row.len() ==> (#[trigger] row[j]).wf()
}

/// The truth values of a row of field elements.
pub open spec fn row_bits(row: Seq<GF2Int>) -> Seq<bool> {
    Seq::new(row.len(), |j: int| row[j].bit())
}

/// A rectangular array of GF(2) elements, stored row by row.
#[derive(Debug)]
pub struct GF2Matrix {
    pub height: usize,
    pub width: usize,
    pub data: Vec<Vec<GF2Int>>,
}

impl View for GF2Matrix {
    type V = Seq<Seq<bool>>;

    open spec fn view(&self) -> Seq<Seq<bool>> {
        Seq::new(self.height as nat, |i: int| row_bits(self.data[i]@))
    }
}

/// Copies a row.
pub fn copy_row(row: &Vec<GF2Int>) -> (r: Vec<GF2Int>)
    ensures
        r@ == row@,
{
    let mut out: Vec<GF2Int> = Vec::new();
    let mut j: usize = 0;
    while j < row.len()
        invariant
            j <= row.len(),
            out@ == row@.subrange(0, j as int),
        decreases row.len() - j,
    {
        out.push(row[j]);
        assert(out@ =~= row@.subrange(0, j + 1));
        j = j + 1;
    }
    assert(row@.subrange(0, row.len() as int) =~= row@);
    out
}

/// The entrywise sum of two rows of one length.
pub fn add_rows(a: &Vec<GF2Int>, b: &Vec<GF2Int>) -> (r: Vec<GF2Int>)
    requires
        a.len() == b.len(),
    ensures
        r.len() == a.len(),
        row_bits(r@) == row_add(row_bits(a@), row_bits(b@)),
        canonical(a@) && canonical(b@) ==> canonical(r@),
{
    let mut out: Vec<GF2Int> = Vec::new();
    let mut j: usize = 0;
    while j < a.len()
        invariant
            j <= a.len(),
            a.len() == b.len(),
            out.len() == j,
            canonical(a@) && canonical(b@) ==> canonical(out@),
            forall|k: int| 0 <= k < j ==> (#[trigger] out[k]).bit() == (a[k].bit() != b[k].bit()),
        decreases a.len() - j,
    {
        out.push(a[j].add(b[j]));
        j = j + 1;
    }
    assert(row_bits(out@) =~= row_add(row_bits(a@), row_bits(b@)));
    out
}

impl GF2Matrix {
    /// Every row has the stated width, there are as many rows as the
    /// stated height, and every entry is stored as 0 or 1.
    pub open spec fn wf(&self) -> bool {
        &&& self.data.len() == self.height
        &&& forall|i: int|
            0 <= i < self.height ==> (#[trigger] self.data[i]).len() == self.width && canonical(
                self.data[i]@,
            )
    }

    /// The matrix of zeros of the given shape.
    pub fn zeros(height: usize, width: usize) -> (r: GF2Matrix)
        ensures
            r.wf(),
            r.height == height,
            r.width == width,
            r@ == zero_matrix(height as nat, width as nat),
    {
        let mut data: Vec<Vec<GF2Int>> = Vec::new();
        let mut i: usize = 0;
        while i < height
            invariant
                i <= height,
                data.len() == i,
                forall|a: int| 0 <= a < i ==> (#[trigger] data[a]).len() == width && canonical(data[a]@),
                forall|a: int, b: int| 0 <= a < i && 0 <= b < width ==> !(#[trigger] data[a][b]).bit(),
            decreases height - i,
        {
            let mut row: Vec<GF2Int> = Vec::new();
            let mut j: usize = 0;
            while j < width
                invariant
                    j <= width,
                    row.len() == j,
                    canonical(row@),
                    forall|b: int| 0 <= b < j ==> !(#[trigger] row[b]).bit(),
                decreases width - j,
            {
                row.push(GF2Int::zero());
                j = j + 1;
            }
            data.push(row);
            i = i + 1;
        }
        let r = GF2Matrix { height, width, data };
        assert(r@ =~~= zero_matrix(height as nat, width as nat));
        r
    }

    /// The identity matrix of the given size.
    pub fn eye(n: usize) -> (r: GF2Matrix)
        ensures
            r.wf(),
            r.height == n,
            r.width == n,
            r@ == identity(n as nat),
    {
        let mut data: Vec<Vec<GF2Int>> = Vec::new();
        let mut i: usize = 0;
        while i < n
            invariant
                i <= n,
                data.len() == i,
                forall|a: int| 0 <= a < i ==> (#[trigger] data[a]).len() == n && canonical(data[a]@),
                forall|a: int, b: int|
                    0 <= a < i && 0 <= b < n ==> (#[trigger] data[a][b]).bit() == (a == b),
            decreases n - i,
        {
            let mut row: Vec<GF2Int> = Vec::new();
            let mut j: usize = 0;
            while j < n
                invariant
                    j <= n,
                    row.len() == j,
                    canonical(row@),
                    forall|b: int| 0 <= b < j ==> (#[trigger] row[b]).bit() == (i == b),
                decreases n - j,
            {
                row.push(GF2Int::from_bool(i == j));
                j = j + 1;
            }
            data.push(row);
            i = i + 1;
        }
        let r = GF2Matrix { height: n, width: n, data };
        assert(r@ =~~= identity(n as nat));
        r
    }

    /// The entry in row `i` and column `j`.
    pub fn get(&self, i: usize, j: usize) -> (r: GF2Int)
        requires
            self.wf(),
            i < self.height,
            j < self.width,
        ensures
            r == self.data[i as int][j as int],
            r.bit() == self@[i as int][j as int],
            r.wf(),
    {
        self.data[i][j]
    }

    /// An independent copy of the matrix.
    pub fn to_owned(&self) -> (r: GF2Matrix)
        requires
            self.wf(),
        ensures
            r.wf(),
            r.height == self.height,
            r.width == self.width,
            forall|i: int| 0 <= i < self.height ==> (#[trigger] r.data[i])@ == self.data[i]@,
            r@ == self@,
    {
        let mut data: Vec<Vec<GF2Int>> = Vec::new();
        let mut i: usize = 0;
        while i < self.height
            invariant
                self.wf(),
                i <= self.height,
                data.len() == i,
                forall|a: int| 0 <= a < i ==> (#[trigger] data[a])@ == self.data[a]@,
                forall|a: int| 0 <= a < i ==> canonical((#[trigger] data[a])@),
            decreases self.height - i,
        {
            data.push(copy_row(&self.data[i]));
            i = i + 1;
        }
        let r = GF2Matrix { height: self.height, width: self.width, data };
        assert(r@ =~~= self@);
        r
    }

    /// The matrix product `self * rhs`.
    pub fn dot(&self, rhs: &GF2Matrix) -> (r: GF2Matrix)
        requires
            self.wf(),
            rhs.wf(),
            self.width == rhs.height,
        ensures
            r.wf(),
            r.height == self.height,
            r.width == rhs.width,
            r@ == mat_mul(self@, rhs@, rhs.width as nat),
    {
        let mut data: Vec<Vec<GF2Int>> = Vec::new();
        let mut i: usize = 0;
        while i < self.height
            invariant
                self.wf(),
                rhs.wf(),
                self.width == rhs.height,
                i <= self.height,
                data.len() == i,
                forall|a: int| 0 <= a < i ==> (#[trigger] data[a]).len() == rhs.width && canonical(data[a]@),
                forall|a: int, b: int|
                    0 <= a < i && 0 <= b < rhs.width ==> (#[trigger] data[a][b]).bit()
                        == dot_prefix(self@[a], rhs@, b, rhs.height as nat),
            decreases self.height - i,
        {
            let mut row: Vec<GF2Int> = Vec::new();
            let mut j: usize = 0;
            while j < rhs.width
                invariant
                    self.wf(),
                    rhs.wf(),
                    self.width == rhs.height,
                    i < self.height,
                    j <= rhs.width,
                    row.len() == j,
                    canonical(row@),
                    forall|b: int|
                        0 <= b < j ==> (#[trigger] row[b]).bit() == dot_prefix(
                            self@[i as int],
                            rhs@,
                            b,
                            rhs.height as nat,
                        ),
                decreases rhs.width - j,
            {
                let mut acc = GF2Int::zero();
                let mut k: usize = 0;
                while k < self.width
                    invariant
                        self.wf(),
                        rhs.wf(),
                        self.width == rhs.height,
                        i < self.height,
                        j < rhs.width,
                        k <= self.width,
                        acc.wf(),
                        acc.bit() == dot_prefix(self@[i as int], rhs@, j as int, k as nat),
                    decreases self.width - k,
                {
                    acc = acc.add(self.data[i][k].mul(rhs.data[k][j]));
                    k = k + 1;
                }
                row.push(acc);
                j = j + 1;
            }
            data.push(row);
            i = i + 1;
        }
        let r = GF2Matrix { height: self.height, width: rhs.width, data };
        assert(r@ =~~= mat_mul(self@, rhs@, rhs.width as nat));
        r
    }

    /// The entrywise sum of two matrices of one shape.
    pub fn add(&self, rhs: &GF2Matrix) -> (r: GF2Matrix)
        requires
            self.wf(),
            rhs.wf(),
            self.height == rhs.height,
            self.width == rhs.width,
        ensures
            r.wf(),
            r.height == self.height,
            r.width == self.width,
            r@ == mat_add(self@, rhs@),
    {
        let mut data: Vec<Vec<GF2Int>> = Vec::new();
        let mut i: usize = 0;
        while i < self.height
            invariant
                self.wf(),
                rhs.wf(),
                self.height == rhs.height,
                self.width == rhs.width,
                i <= self.height,
                data.len() == i,
                forall|a: int| 0 <= a < i ==> (#[trigger] data[a]).len() == self.width && canonical(data[a]@),
                forall|a: int|
                    0 <= a < i ==> row_bits((#[trigger] data[a])@) == row_add(self@[a], rhs@[a]),
            decreases self.height - i,
        {
            data.push(add_rows(&self.data[i], &rhs.data[i]));
            i = i + 1;
        }
        let r = GF2Matrix { height: self.height, width: self.width, data };
        assert(r@ =~~= mat_add(self@, rhs@));
        r
    }

    /// Rows `r0..r1` and columns `c0..c1` as a matrix of their own.
    pub fn slice(&self, r0: usize, r1: usize, c0: usize, c1: usize) -> (r: GF2Matrix)
        requires
            self.wf(),
            r0 <= r1 <= self.height,
            c0 <= c1 <= self.width,
        ensures
            r.wf(),
            r.height == r1 - r0,
            r.width == c1 - c0,
            r@ == block(self@, r0 as int, r1 as int, c0 as int, c1 as int),
    {
        let mut data: Vec<Vec<GF2Int>> = Vec::new();
        let mut i: usize = r0;
        while i < r1
            invariant
                self.wf(),
                r0 <= i <= r1 <= self.height,
                c0 <= c1 <= self.width,
                data.len() == i - r0,
                forall|a: int| 0 <= a < i - r0 ==> (#[trigger] data[a]).len() == c1 - c0 && canonical(data[a]@),
                forall|a: int, b: int|
                    0 <= a < i - r0 && 0 <= b < c1 - c0 ==> (#[trigger] data[a][b]).bit()
                        == self@[r0 + a][c0 + b],
            decreases r1 - i,
        {
            let mut row: Vec<GF2Int> = Vec::new();
            let mut j: usize = c0;
            while j < c1
                invariant
                    self.wf(),
                    r0 <= i < r1 <= self.height,
                    c0 <= j <= c1 <= self.width,
                    row.len() == j - c0,
                    canonical(row@),
                    forall|b: int|
                        0 <= b < j - c0 ==> (#[trigger] row[b]).bit() == self@[i as int][c0 + b],
                decreases c1 - j,
            {
                row.push(self.data[i][j]);
                j = j + 1;
            }
            data.push(row);
            i = i + 1;
        }
        let r = GF2Matrix { height: r1 - r0, width: c1 - c0, data };
        assert(r@ =~~= block(self@, r0 as int, r1 as int, c0 as int, c1 as int));
        r
    }

    /// `self` and `rhs` side by side.
    pub fn concat_columns(&self, rhs: &GF2Matrix) -> (r: GF2Matrix)
        requires
            self.wf(),
            rhs.wf(),
            self.height == rhs.height,
            self.width + rhs.width <= usize::MAX,
        ensures
            r.wf(),
            r.height == self.height,
            r.width == self.width + rhs.width,
            r@ == beside(self@, rhs@, self.width as nat, rhs.width as nat),
    {
        let mut data: Vec<Vec<GF2Int>> = Vec::new();
        let mut i: usize = 0;
        while i < self.height
            invariant
                self.wf(),
                rhs.wf(),
                self.height == rhs.height,
                i <= self.height,
                data.len() == i,
                forall|a: int| 0 <= a < i ==> (#[trigger] data[a]).len() == self.width + rhs.width && canonical(data[a]@),
                forall|a: int, b: int|
                    0 <= a < i && 0 <= b < self.width + rhs.width ==> (#[trigger] data[a][b]).bit()
                        == (if b < self.width {
                        self@[a][b]
                    } else {
                        rhs@[a][b - self.width]
                    }),
            decreases self.height - i,
        {
            let mut row: Vec<GF2Int> = copy_row(&self.data[i]);
            let mut j: usize = 0;
            while j < rhs.width
                invariant
                    self.wf(),
                    rhs.wf(),
                    self.height == rhs.height,
                    i < self.height,
                    j <= rhs.width,
                    row.len() == self.width + j,
                    canonical(row@),
                    forall|b: int|
                        0 <= b < self.width + j ==> (#[trigger] row[b]).bit() == (if b
                            < self.width {
                            self@[i as int][b]
                        } else {
                            rhs@[i as int][b - self.width]
                        }),
                decreases rhs.width - j,
            {
                row.push(rhs.data[i][j]);
                j = j + 1;
            }
            data.push(row);
            i = i + 1;
        }
        let r = GF2Matrix { height: self.height, width: self.width + rhs.width, data };
        assert(r@ =~~= beside(self@, rhs@, self.width as nat, rhs.width as nat));
        r
    }
}

} // verus!
