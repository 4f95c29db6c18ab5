use crate::coef::Scalar;
use crate::rational::{abs, gcd, reduce, Rational};
use vstd::prelude::*;

verus! {

broadcast use vstd::std_specs::vec::group_vec_axioms;

/// A matrix, as its rows.
#[derive(Debug)]
pub struct Matrix<D>(pub Vec<Vec<D>>);

/// The views of the entries of a row.
pub open spec fn row_view<D: View>(r: Seq<D>) -> Seq<D::V> {
    Seq::new(r.len(), |c: int| r[c]@)
}

impl<D: View> View for Matrix<D> {
    type V = Seq<Seq<D::V>>;

    open spec fn view(&self) -> Seq<Seq<D::V>> {
        Seq::new(self.0@.len(), |r: int| row_view(self.0@[r]@))
    }
}

/// The length of the shortest row, zero for no rows.
pub open spec fn min_len<V>(m: Seq<Seq<V>>) -> nat
    decreases m.len(),
{
    if m.len() == 0 {
        0
    } else if m.len() == 1 {
        m[0].len()
    } else {
        let rest = min_len(m.subrange(0, m.len() - 1));
        let last = m[m.len() - 1].len();
        if last < rest {
            last
        } else {
            rest
        }
    }
}

/// The matrix without its first row and without column `i`.
pub open spec fn minor<V>(m: Seq<Seq<V>>, i: int) -> Seq<Seq<V>> {
    Seq::new((m.len() - 1) as nat, |r: int| m[r + 1].remove(i))
}

/// Whether the determinant is defined: the matrix is square (as many rows
/// as its shortest row is long), and so, for a matrix of more than two
/// rows, is the minor the expansion takes.
pub open spec fn det_defined<V>(m: Seq<Seq<V>>) -> bool
    decreases m.len(),
{
    m.len() == min_len(m) && (m.len() <= 2 || det_defined(minor(m, 0)))
}

/// The determinant: one for no rows, the entry for one, the cross
/// difference for two, and otherwise the expansion along the first row.
pub open spec fn det_s<D: Scalar>(m: Seq<Seq<D::V>>) -> D::V
    decreases m.len(), m.len() + 1,
{
    let n = m.len();
    if n == 0 {
        D::one_v()
    } else if n == 1 {
        m[0][0]
    } else if n == 2 {
        D::sub_v(D::mul_v(m[0][0], m[1][1]), D::mul_v(m[0][1], m[1][0]))
    } else {
        laplace::<D>(m, n as int)
    }
}

/// The first `k` terms of the expansion along the first row, the minor's
/// determinant times the entry, added and subtracted in turn.
pub open spec fn laplace<D: Scalar>(m: Seq<Seq<D::V>>, k: int) -> D::V
    decreases m.len(), k,
{
    if k <= 0 || m.len() == 0 {
        D::zero_v()
    } else {
        let prev = laplace::<D>(m, k - 1);
        let c = D::mul_v(det_s::<D>(minor(m, k - 1)), m[0][k - 1]);
        if (k - 1) % 2 == 0 {
            D::add_v(prev, c)
        } else {
            D::sub_v(prev, c)
        }
    }
}

proof fn lemma_min_len_le<V>(m: Seq<Seq<V>>, r: int)
    requires
        0 <= r < m.len(),
    ensures
        min_len(m) <= m[r].len(),
    decreases m.len(),
{
    if m.len() > 1 && r < m.len() - 1 {
        lemma_min_len_le(m.subrange(0, m.len() - 1), r);
    }
}

/// Two matrices of the same row count whose rows have the same lengths.
pub open spec fn same_shape<V>(a: Seq<Seq<V>>, b: Seq<Seq<V>>) -> bool {
    a.len() == b.len() && forall|r: int| 0 <= r < a.len() ==> #[trigger] a[r].len() == b[r].len()
}

proof fn lemma_min_len_shape<V>(a: Seq<Seq<V>>, b: Seq<Seq<V>>)
    requires
        same_shape(a, b),
    ensures
        min_len(a) == min_len(b),
    decreases a.len(),
{
    if a.len() > 1 {
        let a1 = a.subrange(0, a.len() - 1);
        let b1 = b.subrange(0, b.len() - 1);
        assert forall|r: int| 0 <= r < a1.len() implies #[trigger] a1[r].len() == b1[r].len() by {
            assert(a1[r] == a[r]);
            assert(b1[r] == b[r]);
        }
        lemma_min_len_shape(a1, b1);
    }
}

/// Whether the determinant is defined depends on the shape alone.
proof fn lemma_det_defined_shape<V>(a: Seq<Seq<V>>, b: Seq<Seq<V>>)
    requires
        same_shape(a, b),
    ensures
        det_defined(a) == det_defined(b),
    decreases a.len(),
{
    lemma_min_len_shape(a, b);
    if a.len() > 2 && a.len() == min_len(a) {
        let ma = minor(a, 0);
        let mb = minor(b, 0);
        assert forall|r: int| 0 <= r < ma.len() implies #[trigger] ma[r].len() == mb[r].len() by {
            lemma_min_len_le(a, r + 1);
            lemma_min_len_le(b, r + 1);
        }
        lemma_det_defined_shape(ma, mb);
    }
}

/// Every minor of a matrix whose determinant is defined has a defined
/// determinant too.
proof fn lemma_det_defined_minor<V>(m: Seq<Seq<V>>, i: int)
    requires
        det_defined(m),
        m.len() > 2,
        0 <= i < m.len(),
    ensures
        det_defined(minor(m, i)),
{
    let a = minor(m, 0);
    let b = minor(m, i);
    assert forall|r: int| 0 <= r < a.len() implies #[trigger] a[r].len() == b[r].len() by {
        lemma_min_len_le(m, r + 1);
    }
    lemma_det_defined_shape(a, b);
}

/// The `n` by `n` identity matrix of rationals.
pub open spec fn identity_q(n: nat) -> Seq<Seq<(int, int)>> {
    Seq::new(n, |i: int| Seq::new(n, |j: int| if i == j { (1int, 1int) } else { (0int, 1int) }))
}

/// A square matrix of fractions with positive denominators.
pub open spec fn positive_square(m: Seq<Seq<(int, int)>>) -> bool {
    &&& forall|r: int| 0 <= r < m.len() ==> (#[trigger] m[r]).len() == m.len()
    &&& forall|r: int, c: int| 0 <= r < m.len() && 0 <= c < m.len() ==> (#[trigger] m[r][c]).1 > 0
}

proof fn lemma_gcd_bounds(a: nat, b: nat)
    requires
        b > 0,
    ensures
        0 < gcd(a, b) <= b,
    decreases b,
{
    reveal_with_fuel(gcd, 2);
    if a % b != 0 {
        lemma_gcd_bounds(b, a % b);
    }
}

/// Reducing keeps a positive denominator positive.
proof fn lemma_reduce_positive(n: int, d: int)
    requires
        d > 0,
    ensures
        reduce(n, d).1 > 0,
{
    let a: nat = if n < 0 { (-n) as nat } else { n as nat };
    lemma_gcd_bounds(a, d as nat);
    let g = gcd(a, d as nat) as int;
    assert(d / g >= 1) by (nonlinear_arith)
        requires
            0 < g <= d,
    ;
}

/// Rational arithmetic keeps denominators positive.
proof fn lemma_ops_positive(a: (int, int), b: (int, int))
    requires
        a.1 > 0,
        b.1 > 0,
    ensures
        <Rational as Scalar>::add_v(a, b).1 > 0,
        <Rational as Scalar>::sub_v(a, b).1 > 0,
        <Rational as Scalar>::mul_v(a, b).1 > 0,
{
    assert(a.1 * b.1 > 0) by (nonlinear_arith)
        requires
            a.1 > 0,
            b.1 > 0,
    ;
    lemma_reduce_positive(a.0 * b.1 + b.0 * a.1, a.1 * b.1);
    lemma_reduce_positive(a.0 * b.1 - b.0 * a.1, a.1 * b.1);
    lemma_reduce_positive(a.0 * b.0, a.1 * b.1);
}

proof fn lemma_minor_positive(m: Seq<Seq<(int, int)>>, i: int)
    requires
        positive_square(m),
        0 <= i < m.len(),
    ensures
        positive_square(minor(m, i)),
{
    let s = minor(m, i);
    assert forall|r: int, c: int| 0 <= r < s.len() && 0 <= c < s.len() implies (#[trigger] s[r][c]).1 > 0 by {
        if c < i {
            assert(s[r][c] == m[r + 1][c]);
        } else {
            assert(s[r][c] == m[r + 1][c + 1]);
        }
    }
}

/// The determinant of a square matrix of fractions with positive
/// denominators has a positive denominator.
proof fn lemma_det_positive(m: Seq<Seq<(int, int)>>)
    requires
        positive_square(m),
    ensures
        det_s::<Rational>(m).1 > 0,
    decreases m.len(), m.len() + 1,
{
    let n = m.len();
    if n == 1 {
        assert(m[0][0].1 > 0);
    } else if n == 2 {
        assert(m[0][0].1 > 0 && m[1][1].1 > 0 && m[0][1].1 > 0 && m[1][0].1 > 0);
        lemma_ops_positive(m[0][0], m[1][1]);
        lemma_ops_positive(m[0][1], m[1][0]);
        lemma_ops_positive(
            <Rational as Scalar>::mul_v(m[0][0], m[1][1]),
            <Rational as Scalar>::mul_v(m[0][1], m[1][0]),
        );
    } else if n > 2 {
        lemma_laplace_positive(m, n as int);
    }
}

proof fn lemma_laplace_positive(m: Seq<Seq<(int, int)>>, k: int)
    requires
        positive_square(m),
        m.len() > 2,
        k <= m.len(),
    ensures
        laplace::<Rational>(m, k).1 > 0,
    decreases m.len(), k,
{
    if k > 0 {
        lemma_laplace_positive(m, k - 1);
        lemma_minor_positive(m, k - 1);
        lemma_det_positive(minor(m, k - 1));
        assert(m[0][k - 1].1 > 0);
        let d = det_s::<Rational>(minor(m, k - 1));
        lemma_ops_positive(d, m[0][k - 1]);
        let c = <Rational as Scalar>::mul_v(d, m[0][k - 1]);
        lemma_ops_positive(laplace::<Rational>(m, k - 1), c);
    }
}

proof fn lemma_one_zero()
    ensures
        reduce(1, 1) == (1int, 1int),
        forall|x: int| x > 0 ==> #[trigger] reduce(0, x) == (0int, 1int),
{
    assert(gcd(1, 1) == 1) by {
        reveal_with_fuel(gcd, 3);
    }
    assert(abs(1) == 1);
    assert(1int / 1 == 1);
    assert(reduce(1, 1) == (1int, 1int));
    assert forall|x: int| x > 0 implies #[trigger] reduce(0, x) == (0int, 1int) by {
        assert(abs(0) == 0 && abs(x) == x);
        assert(0nat % (x as nat) == 0);
        assert(gcd(0, x as nat) == x) by {
            reveal_with_fuel(gcd, 3);
        }
        assert(x / x == 1 && 0int / x == 0) by (nonlinear_arith)
            requires
                x > 0,
        ;
    }
}

proof fn lemma_laplace_identity(n: nat, k: int)
    requires
        n > 2,
        1 <= k <= n,
        det_s::<Rational>(identity_q((n - 1) as nat)) == (1int, 1int),
    ensures
        laplace::<Rational>(identity_q(n), k) == (1int, 1int),
    decreases k,
{
    let m = identity_q(n);
    lemma_one_zero();
    if k == 1 {
        let s = minor(m, 0);
        assert(s =~= identity_q((n - 1) as nat)) by {
            assert forall|r: int| 0 <= r < s.len() implies #[trigger] s[r] =~= identity_q((n - 1) as nat)[r] by {
                assert forall|c: int| 0 <= c < s[r].len() implies #[trigger] s[r][c] == identity_q((n - 1) as nat)[r][c] by {
                    assert(s[r][c] == m[r + 1][c + 1]);
                }
            }
        }
        assert(laplace::<Rational>(m, 0) == (0int, 1int));
        assert(m[0][0] == (1int, 1int));
    } else {
        lemma_laplace_identity(n, k - 1);
        assert forall|r: int| 0 <= r < m.len() implies (#[trigger] m[r]).len() == m.len() by {}
        assert(positive_square(m));
        lemma_minor_positive(m, k - 1);
        lemma_det_positive(minor(m, k - 1));
        assert(m[0][k - 1] == (0int, 1int));
        let d = det_s::<Rational>(minor(m, k - 1));
        assert(<Rational as Scalar>::mul_v(d, (0int, 1int)) == reduce(0, d.1)) by {
            assert(d.0 * 0 == 0);
            assert(d.1 * 1 == d.1);
        }
    }
}

/// The determinant of the identity matrix is one, for every size.
pub proof fn law_det_identity(n: nat)
    ensures
        det_s::<Rational>(identity_q(n)) == <Rational as Scalar>::one_v(),
    decreases n,
{
    let m = identity_q(n);
    lemma_one_zero();
    if n == 1 {
        assert(m[0][0] == (1int, 1int));
    } else if n == 2 {
        assert(m[0][0] == (1int, 1int) && m[1][1] == (1int, 1int));
        assert(m[0][1] == (0int, 1int) && m[1][0] == (0int, 1int));
        let one = <Rational as Scalar>::mul_v((1int, 1int), (1int, 1int));
        let zero = <Rational as Scalar>::mul_v((0int, 1int), (0int, 1int));
        assert(1int * 1int == 1int && 0int * 0int == 0int);
        assert(one == reduce(1int * 1int, 1int * 1int));
        assert(one == reduce(1, 1));
        assert(zero == reduce(0, 1));
        assert(<Rational as Scalar>::sub_v(one, zero) == reduce(1, 1));
    } else if n > 2 {
        law_det_identity((n - 1) as nat);
        lemma_laplace_identity(n, n as int);
        assert(det_s::<Rational>(m) == laplace::<Rational>(m, n as int));
    }
}

/// The `n` by `n` permutation matrix whose first row picks column `k` and
/// whose other rows pick the remaining columns in order.
pub open spec fn pick_first(n: nat, k: int) -> Seq<Seq<(int, int)>> {
    Seq::new(
        n,
        |r: int|
            Seq::new(
                n,
                |c: int|
                    if (r == 0 && c == k) || (r > 0 && r - 1 < k && c == r - 1) || (r > 0 && r - 1 >= k && c == r) {
                        (1int, 1int)
                    } else {
                        (0int, 1int)
                    },
            ),
    )
}

/// Plus or minus one by the parity of `k`.
pub open spec fn sign_q(k: int) -> (int, int) {
    if k % 2 == 0 {
        (1int, 1int)
    } else {
        (-1int, 1int)
    }
}

proof fn lemma_pick_first_minor(n: nat, k: int)
    requires
        n >= 2,
        0 <= k < n,
    ensures
        minor(pick_first(n, k), k) =~= identity_q((n - 1) as nat),
        positive_square(pick_first(n, k)),
{
    let m = pick_first(n, k);
    let s = minor(m, k);
    let id = identity_q((n - 1) as nat);
    assert forall|r: int| 0 <= r < s.len() implies #[trigger] s[r] =~= id[r] by {
        assert forall|c: int| 0 <= c < s[r].len() implies #[trigger] s[r][c] == id[r][c] by {
            if c < k {
                assert(s[r][c] == m[r + 1][c]);
            } else {
                assert(s[r][c] == m[r + 1][c + 1]);
            }
        }
    }
}

proof fn lemma_laplace_pick(n: nat, k: int, j: int)
    requires
        n > 2,
        0 <= k < n,
        0 <= j <= n,
        det_s::<Rational>(identity_q((n - 1) as nat)) == (1int, 1int),
    ensures
        laplace::<Rational>(pick_first(n, k), j) == if j <= k {
            (0int, 1int)
        } else {
            sign_q(k)
        },
    decreases j,
{
    let m = pick_first(n, k);
    lemma_one_zero();
    lemma_pick_first_minor(n, k);
    if j > 0 {
        lemma_laplace_pick(n, k, j - 1);
        let prev = laplace::<Rational>(m, j - 1);
        let d = det_s::<Rational>(minor(m, j - 1));
        let c = <Rational as Scalar>::mul_v(d, m[0][j - 1]);
        if j - 1 == k {
            assert(m[0][k] == (1int, 1int));
            assert(c == reduce(1int * 1int, 1int * 1int));
            assert(c == (1int, 1int));
            assert(prev == (0int, 1int));
            assert(<Rational as Scalar>::add_v(prev, c) == reduce(0int * 1int + 1int * 1int, 1int * 1int));
            assert(<Rational as Scalar>::sub_v(prev, c) == reduce(0int * 1int - 1int * 1int, 1int * 1int));
            lemma_reduce_unit();
        } else {
            assert(m[0][j - 1] == (0int, 1int));
            lemma_minor_positive(m, j - 1);
            lemma_det_positive(minor(m, j - 1));
            assert(c == reduce(d.0 * 0, d.1 * 1)) by {
                assert(d.0 * 0 == 0);
                assert(d.1 * 1 == d.1);
            }
            assert(c == (0int, 1int));
            lemma_reduce_unit();
            assert(<Rational as Scalar>::add_v(prev, c) == reduce(prev.0 * 1 + 0 * prev.1, prev.1 * 1));
            assert(<Rational as Scalar>::sub_v(prev, c) == reduce(prev.0 * 1 - 0 * prev.1, prev.1 * 1));
            assert(prev.0 * 1 + 0 * prev.1 == prev.0 && prev.0 * 1 - 0 * prev.1 == prev.0 && prev.1 * 1 == prev.1);
        }
    }
}

proof fn lemma_reduce_unit()
    ensures
        reduce(1, 1) == (1int, 1int),
        reduce(-1, 1) == (-1int, 1int),
        reduce(0, 1) == (0int, 1int),
{
    lemma_one_zero();
    assert(abs(-1) == 1);
    assert(gcd(1, 1) == 1) by {
        reveal_with_fuel(gcd, 3);
    }
    assert(-1int / 1 == -1 && 1int / 1 == 1);
}

/// Expansion signs: the permutation matrix whose first row picks column
/// `k` (the other rows keeping the remaining columns in order) has
/// determinant plus one for even `k` and minus one for odd `k`.
pub proof fn law_det_pick_first(n: nat, k: int)
    requires
        0 <= k < n,
    ensures
        det_s::<Rational>(pick_first(n, k)) == sign_q(k),
{
    let m = pick_first(n, k);
    lemma_reduce_unit();
    if n == 1 {
        assert(m[0][0] == (1int, 1int));
    } else if n == 2 {
        let a = <Rational as Scalar>::mul_v(m[0][0], m[1][1]);
        let b = <Rational as Scalar>::mul_v(m[0][1], m[1][0]);
        if k == 0 {
            assert(m[0][0] == (1int, 1int) && m[1][1] == (1int, 1int));
            assert(m[0][1] == (0int, 1int) && m[1][0] == (0int, 1int));
            assert(a == reduce(1int * 1int, 1int * 1int));
            assert(b == reduce(0int * 0int, 1int * 1int));
            assert(<Rational as Scalar>::sub_v(a, b) == reduce(1int * 1int - 0int * 1int, 1int * 1int));
        } else {
            assert(m[0][0] == (0int, 1int) && m[1][1] == (0int, 1int));
            assert(m[0][1] == (1int, 1int) && m[1][0] == (1int, 1int));
            assert(a == reduce(0int * 0int, 1int * 1int));
            assert(b == reduce(1int * 1int, 1int * 1int));
            assert(<Rational as Scalar>::sub_v(a, b) == reduce(0int * 1int - 1int * 1int, 1int * 1int));
        }
    } else {
        law_det_identity((n - 1) as nat);
        lemma_laplace_pick(n, k, n as int);
        assert(det_s::<Rational>(m) == laplace::<Rational>(m, n as int));
    }
}

impl<D: Scalar> Matrix<D> {
    /// The length of the shortest row, zero for no rows.
    pub fn column(&self) -> (r: usize)
        ensures
            r == min_len(self@),
    {
        let ghost m = self@;
        let n = self.0.len();
        if n == 0 {
            return 0;
        }
        let mut best = self.0[0].len();
        let mut i: usize = 1;
        while i < n
            invariant
                m == self@,
                n == m.len(),
                1 <= i <= n,
                best == min_len(m.subrange(0, i as int)),
            decreases n - i,
        {
            proof {
                assert(m.subrange(0, i + 1).subrange(0, i as int) =~= m.subrange(0, i as int));
            }
            let l = self.0[i].len();
            if l < best {
                best = l;
            }
            i = i + 1;
        }
        proof {
            assert(m.subrange(0, n as int) =~= m);
        }
        best
    }

    /// The number of rows.
    pub fn row(&self) -> (r: usize)
        ensures
            r == self@.len(),
    {
        self.0.len()
    }

    /// A `row` by `col` matrix of zeros.
    pub fn new_zeros(row: usize, col: usize) -> (r: Matrix<D>)
        ensures
            r@.len() == row,
            forall|i: int| 0 <= i < row ==> (#[trigger] r@[i]).len() == col,
            forall|i: int, j: int| 0 <= i < row && 0 <= j < col ==> r@[i][j] == D::zero_v(),
    {
        let mut rows: Vec<Vec<D>> = Vec::new();
        for i in 0..row
            invariant
                rows@.len() == i,
                forall|k: int| 0 <= k < i ==> (#[trigger] rows@[k])@.len() == col,
                forall|k: int, j: int| 0 <= k < i && 0 <= j < col ==> (#[trigger] rows@[k]@[j])@ == D::zero_v(),
        {
            let mut r: Vec<D> = Vec::new();
            for j in 0..col
                invariant
                    r@.len() == j,
                    forall|k: int| 0 <= k < j ==> (#[trigger] r@[k])@ == D::zero_v(),
            {
                r.push(D::zero());
            }
            rows.push(r);
        }
        let r = Matrix(rows);
        assert forall|a: int, b: int| 0 <= a < row && 0 <= b < col implies r@[a][b] == D::zero_v() by {
            assert(r@[a][b] == rows@[a]@[b]@);
        }
        r
    }

    /// The entry in row `i` and column `j`.
    pub fn get(&self, i: usize, j: usize) -> (r: &D)
        requires
            i < self@.len(),
            j < self@[i as int].len(),
        ensures
            r@ == self@[i as int][j as int],
    {
        &self.0[i][j]
    }

    /// Replaces the entry in row `i` and column `j`.
    pub fn set(&mut self, i: usize, j: usize, v: D)
        requires
            i < old(self)@.len(),
            j < old(self)@[i as int].len(),
        ensures
            final(self)@ == old(self)@.update(i as int, old(self)@[i as int].update(j as int, v@)),
    {
        let ghost before = self@;
        let mut rowv: Vec<D> = Vec::new();
        std::mem::swap(&mut rowv, &mut self.0[i]);
        rowv.set(j, v);
        self.0.set(i, rowv);
        proof {
            let target = before.update(i as int, before[i as int].update(j as int, v@));
            assert forall|r: int| 0 <= r < self@.len() implies #[trigger] self@[r] == target[r] by {
                if r == i {
                    assert(row_view(self.0@[r]@) =~= before[i as int].update(j as int, v@));
                }
            }
            assert(self@ =~= target);
        }
    }

    /// The determinant, by expansion along the first row; it is defined
    /// only where `det_defined` holds.
    pub fn det(&self) -> (r: D)
        requires
            det_defined(self@),
        ensures
            r@ == det_s::<D>(self@),
        decreases self@.len(),
    {
        let n = self.0.len();
        proof {
            if n > 0 {
                lemma_min_len_le(self@, 0);
            }
            if n > 1 {
                lemma_min_len_le(self@, 1);
            }
        }
        if n == 0 {
            D::one()
        } else if n == 1 {
            self.0[0][0].duplicate()
        } else if n == 2 {
            let a = self.0[0][0].times(&self.0[1][1]);
            let b = self.0[0][1].times(&self.0[1][0]);
            a.minus(&b)
        } else {
            let mut res = D::zero();
            let mut i: usize = 0;
            while i < n
                invariant
                    n == self@.len(),
                    n > 2,
                    det_defined(self@),
                    i <= n,
                    res@ == laplace::<D>(self@, i as int),
                decreases n - i,
            {
                proof {
                    lemma_det_defined_minor(self@, i as int);
                    lemma_min_len_le(self@, 0);
                    assert forall|k: int| 0 <= k < self@.len() implies i < (#[trigger] self@[k]).len() by {
                        lemma_min_len_le(self@, k);
                    }
                }
                let sub = self.minor_of(i);
                let c = sub.det().times(&self.0[0][i]);
                if i % 2 == 0 {
                    res = res.plus(&c);
                } else {
                    res = res.minus(&c);
                }
                i = i + 1;
            }
            res
        }
    }

    /// Whether the determinant is defined (`det` may be called): the
    /// matrix is square, and so is every minor the expansion takes.
    pub fn has_det(&self) -> (r: bool)
        ensures
            r == det_defined(self@),
        decreases self@.len(),
    {
        let n = self.row();
        if n != self.column() {
            return false;
        }
        if n <= 2 {
            return true;
        }
        proof {
            assert forall|k: int| 0 <= k < self@.len() implies 0 < (#[trigger] self@[k]).len() by {
                lemma_min_len_le(self@, k);
            }
        }
        let sub = self.minor_of(0);
        sub.has_det()
    }

    /// The matrix without its first row and without column `i`.
    fn minor_of(&self, i: usize) -> (r: Matrix<D>)
        requires
            self@.len() > 0,
            forall|k: int| 0 <= k < self@.len() ==> i < (#[trigger] self@[k]).len(),
        ensures
            r@ == minor(self@, i as int),
    {
        let ghost m = self@;
        let n = self.0.len();
        let mut rows: Vec<Vec<D>> = Vec::new();
        for k in 1..n
            invariant
                m == self@,
                n == m.len(),
                forall|q: int| 0 <= q < m.len() ==> i < (#[trigger] m[q]).len(),
                rows@.len() == k - 1,
                forall|q: int| 0 <= q < k - 1 ==> row_view((#[trigger] rows@[q])@) == m[q + 1].remove(i as int),
        {
            let src = &self.0[k];
            proof {
                assert(row_view(src@) == m[k as int]);
                assert(i < m[k as int].len());
            }
            let mut row: Vec<D> = Vec::new();
            for c in 0..src.len()
                invariant
                    m == self@,
                    row_view(src@) == m[k as int],
                    i < src@.len(),
                    row@.len() == if c <= i { c as int } else { c - 1 },
                    forall|q: int|
                        0 <= q < row@.len() ==> (#[trigger] row@[q])@ == m[k as int].remove(i as int)[q],
            {
                if c != i {
                    row.push(src[c].duplicate());
                }
            }
            proof {
                assert(row_view(row@) =~= m[k as int].remove(i as int));
            }
            rows.push(row);
        }
        let r = Matrix(rows);
        proof {
            assert(r@ =~= minor(m, i as int));
        }
        r
    }

    /// The matrix as `[[a, b], [c, d]]`.
    pub fn to_text(&self) -> (r: String)
        ensures
            r@ == matrix_text::<D>(self@),
    {
        let ghost m = self@;
        let mut s = String::new();
        s.append("[");
        proof {
            reveal_strlit("[");
            assert(s@ == seq!['[']);
        }
        for i in 0..self.0.len()
            invariant
                m == self@,
                s@ == seq!['['] + rows_text::<D>(m.subrange(0, i as int)),
        {
            let ghost before = s@;
            if i > 0 {
                s.append(", ");
            }
            s.append("[");
            let row = &self.0[i];
            proof {
                reveal_strlit(", ");
                reveal_strlit("[");
                assert(row_view(row@) == m[i as int]);
                assert(m[i as int].subrange(0, 0) =~= Seq::<D::V>::empty());
                assert(s@ =~= before + (if i > 0 { seq![',', ' '] } else { Seq::empty() }) + seq!['[']
                    + entries_text::<D>(m[i as int].subrange(0, 0)));
            }
            for j in 0..row.len()
                invariant
                    m == self@,
                    row_view(row@) == m[i as int],
                    s@ == before + (if i > 0 { seq![',', ' '] } else { Seq::empty() }) + seq!['[']
                        + entries_text::<D>(m[i as int].subrange(0, j as int)),
            {
                let ghost b2 = s@;
                if j > 0 {
                    s.append(", ");
                }
                let t = row[j].text();
                s.append(t.as_str());
                proof {
                    reveal_strlit(", ");
                    let e = m[i as int];
                    assert(e.subrange(0, j + 1).subrange(0, j as int) =~= e.subrange(0, j as int));
                    assert(e.subrange(0, j + 1)[j as int] == e[j as int]);
                }
            }
            s.append("]");
            proof {
                reveal_strlit(", ");
                reveal_strlit("[");
                reveal_strlit("]");
                assert(m[i as int].subrange(0, row@.len() as int) =~= m[i as int]);
                assert(m.subrange(0, i + 1).subrange(0, i as int) =~= m.subrange(0, i as int));
                assert(s@ =~= seq!['['] + rows_text::<D>(m.subrange(0, i + 1)));
            }
        }
        s.append("]");
        proof {
            reveal_strlit("]");
            assert(m.subrange(0, m.len() as int) =~= m);
        }
        s
    }
}

/// The entries of a row, each printed, separated by `, `.
pub open spec fn entries_text<D: Scalar>(r: Seq<D::V>) -> Seq<char>
    decreases r.len(),
{
    if r.len() == 0 {
        Seq::empty()
    } else {
        let init = entries_text::<D>(r.subrange(0, r.len() - 1));
        init + (if r.len() > 1 {
            seq![',', ' ']
        } else {
            Seq::empty()
        }) + D::text_v(r[r.len() - 1])
    }
}

/// The rows, each as `[entries]`, separated by `, `.
pub open spec fn rows_text<D: Scalar>(m: Seq<Seq<D::V>>) -> Seq<char>
    decreases m.len(),
{
    if m.len() == 0 {
        Seq::empty()
    } else {
        let init = rows_text::<D>(m.subrange(0, m.len() - 1));
        init + (if m.len() > 1 {
            seq![',', ' ']
        } else {
            Seq::empty()
        }) + seq!['['] + entries_text::<D>(m[m.len() - 1]) + seq![']']
    }
}

/// A matrix printed as `[[a, b], [c, d]]`.
pub open spec fn matrix_text<D: Scalar>(m: Seq<Seq<D::V>>) -> Seq<char> {
    seq!['['] + rows_text::<D>(m) + seq![']']
}

} // verus!
