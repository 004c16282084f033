//! Square matrices of fixed-point numbers.

use crate::weight::UNIT;
use vstd::prelude::*;

verus! {

/// The number of steps of the power method.
pub const ITERATIONS: usize = 100;

/// `g` has `n` rows of `n` entries each.
pub open spec fn square(g: Seq<Seq<nat>>, n: int) -> bool {
    &&& g.len() == n
    &&& forall|i: int| 0 <= i < n ==> (#[trigger] g[i]).len() == n
}

/// Every entry of `g` is a `u64`.
pub open spec fn fits(g: Seq<Seq<nat>>) -> bool {
    forall|i: int, j: int| 0 <= i < g.len() && 0 <= j < g[i].len() ==> #[trigger] g[i][j] <= u64::MAX
}

/// The sum of the first `k` products of row `i` of `a` with column `j` of `b`.
pub open spec fn dot(a: Seq<Seq<nat>>, b: Seq<Seq<nat>>, i: int, j: int, k: int) -> nat
    decreases k,
{
    if k <= 0 {
        0
    } else {
        dot(a, b, i, j, k - 1) + a[i][k - 1] * b[k - 1][j]
    }
}

/// The sum, over the first `rows` rows of `a`, of the first `k` products of
/// the row with column `j` of `b`.
pub open spec fn column_dot(a: Seq<Seq<nat>>, b: Seq<Seq<nat>>, j: int, rows: int, k: int) -> nat
    decreases rows,
{
    if rows <= 0 {
        0
    } else {
        column_dot(a, b, j, rows - 1, k) + dot(a, b, rows - 1, j, k)
    }
}

/// A product of fixed-point numbers, given as a product of integers: the
/// integer part of the quotient by one whole.
pub open spec fn scaled(x: nat) -> nat {
    (x as int / UNIT as int) as nat
}

/// The entry of the fixed-point product in row `i` and column `j`: what the
/// first `i + 1` entries of the column are together, rounded down, less what
/// the first `i` are. So the entry is its exact value rounded down or up,
/// and the column as a whole loses less than one millionth.
pub open spec fn product_entry(a: Seq<Seq<nat>>, b: Seq<Seq<nat>>, i: int, j: int) -> nat {
    (scaled(column_dot(a, b, j, i + 1, a.len() as int)) - scaled(
        column_dot(a, b, j, i, a.len() as int),
    )) as nat
}

/// The fixed-point product of two square matrices of one size.
pub open spec fn product(a: Seq<Seq<nat>>, b: Seq<Seq<nat>>) -> Seq<Seq<nat>> {
    Seq::new(a.len(), |i: int| Seq::new(a.len(), |j: int| product_entry(a, b, i, j)))
}

/// The sum of two square matrices of one size.
pub open spec fn sum_of(a: Seq<Seq<nat>>, b: Seq<Seq<nat>>) -> Seq<Seq<nat>> {
    Seq::new(a.len(), |i: int| Seq::new(a.len(), |j: int| a[i][j] + b[i][j]))
}

/// The matrix with one whole on the diagonal and nothing elsewhere.
pub open spec fn identity(n: nat) -> Seq<Seq<nat>> {
    Seq::new(
        n,
        |i: int|
            Seq::new(
                n,
                |j: int|
                    if i == j {
                        UNIT as nat
                    } else {
                        0nat
                    },
            ),
    )
}

/// The `k`-th fixed-point power of `m`.
pub open spec fn power(m: Seq<Seq<nat>>, k: nat) -> Seq<Seq<nat>>
    decreases k,
{
    if k == 0 {
        identity(m.len())
    } else {
        product(power(m, (k - 1) as nat), m)
    }
}

/// The sum of the powers of `m` from the power 0 up to the `k`-th.
pub open spec fn series(m: Seq<Seq<nat>>, k: nat) -> Seq<Seq<nat>>
    decreases k,
{
    if k == 0 {
        identity(m.len())
    } else {
        sum_of(series(m, (k - 1) as nat), power(m, k))
    }
}

/// The sum of the entries of `row` from index `from` up to `to`, without it.
pub open spec fn span_sum(row: Seq<nat>, from: int, to: int) -> nat
    decreases to - from,
{
    if to <= from {
        0
    } else {
        span_sum(row, from, to - 1) + row[to - 1]
    }
}

/// The sum of the entries of column `c` in the first `k` rows.
pub open spec fn column_sum(m: Seq<Seq<nat>>, c: int, k: int) -> nat
    decreases k,
{
    if k <= 0 {
        0
    } else {
        column_sum(m, c, k - 1) + m[k - 1][c]
    }
}

/// No entry of `g` is greater than `bound`.
pub open spec fn bounded(g: Seq<Seq<nat>>, bound: nat) -> bool {
    forall|i: int, j: int| 0 <= i < g.len() && 0 <= j < g[i].len() ==> #[trigger] g[i][j] <= bound
}

/// Every column of `m` adds up to exactly one whole: each node passes on
/// all that it has.
pub open spec fn balanced(m: Seq<Seq<nat>>) -> bool {
    forall|c: int| 0 <= c < m.len() ==> #[trigger] column_sum(m, c, m.len() as int) == UNIT
}

/// No column of `m` adds up to more than one whole: no node passes on more
/// than it has.
pub open spec fn conserving(m: Seq<Seq<nat>>) -> bool {
    forall|c: int| 0 <= c < m.len() ==> #[trigger] column_sum(m, c, m.len() as int) <= UNIT
}

/// A matrix of fixed-point numbers, row by row.
#[derive(Debug)]
pub struct Matrix {
    pub rows: Vec<Vec<u64>>,
}

impl View for Matrix {
    type V = Seq<Seq<nat>>;

    open spec fn view(&self) -> Seq<Seq<nat>> {
        Seq::new(
            self.rows@.len(),
            |i: int| Seq::new(self.rows@[i]@.len(), |j: int| self.rows@[i]@[j] as nat),
        )
    }
}

impl Matrix {
    /// The matrix has `n` rows of `n` entries each.
    pub open spec fn wf(self, n: int) -> bool {
        &&& self.rows@.len() == n
        &&& forall|i: int| 0 <= i < n ==> (#[trigger] self.rows@[i])@.len() == n
    }

    /// The number of rows.
    pub fn size(&self) -> (r: usize)
        ensures
            r == self.rows@.len(),
    {
        self.rows.len()
    }

    /// The entry in row `r` and column `c`.
    pub fn get(&self, r: usize, c: usize) -> (v: u64)
        requires
            self.wf(self.rows@.len() as int),
            r < self.rows@.len(),
            c < self.rows@.len(),
        ensures
            v == self@[r as int][c as int],
    {
        self.rows[r][c]
    }

    /// The matrix of size `n` with one whole on the diagonal.
    pub fn identity(n: usize) -> (r: Matrix)
        ensures
            r.wf(n as int),
            r@ == identity(n as nat),
    {
        let mut rows: Vec<Vec<u64>> = Vec::new();
        let mut i: usize = 0;
        while i < n
            invariant
                0 <= i <= n,
                rows@.len() == i,
                forall|p: int| 0 <= p < i ==> (#[trigger] rows@[p])@.len() == n,
                forall|p: int, q: int|
                    0 <= p < i && 0 <= q < n ==> #[trigger] rows@[p]@[q] == if p == q {
                        UNIT
                    } else {
                        0u64
                    },
            decreases n - i,
        {
            let mut row: Vec<u64> = Vec::new();
            let mut j: usize = 0;
            while j < n
                invariant
                    0 <= j <= n,
                    i < n,
                    row@.len() == j,
                    forall|q: int|
                        0 <= q < j ==> #[trigger] row@[q] == if i as int == q {
                            UNIT
                        } else {
                            0u64
                        },
                decreases n - j,
            {
                row.push(if i == j { UNIT } else { 0 });
                j = j + 1;
            }
            rows.push(row);
            i = i + 1;
        }
        let r = Matrix { rows };
        proof {
            assert forall|p: int| 0 <= p < n implies #[trigger] r@[p] =~= identity(n as nat)[p] by {}
            assert(r@ =~= identity(n as nat));
        }
        r
    }

    /// The fixed-point product of `self` and `other`, if all its entries fit.
    /// What an entry loses by being rounded down goes to the next entry of
    /// its column.
    pub fn multiply(&self, other: &Matrix) -> (r: Option<Matrix>)
        requires
            self.wf(self.rows@.len() as int),
            other.wf(self.rows@.len() as int),
        ensures
            r is Some <==> fits(product(self@, other@)),
            r is Some ==> r.unwrap().wf(self.rows@.len() as int),
            r is Some ==> r.unwrap()@ == product(self@, other@),
    {
        let n: usize = self.rows.len();
        let mut carry: Vec<u64> = Vec::new();
        let mut c: usize = 0;
        while c < n
            invariant
                0 <= c <= n,
                carry@.len() == c,
                forall|q: int| 0 <= q < c ==> #[trigger] carry@[q] == 0,
            decreases n - c,
        {
            carry.push(0);
            c = c + 1;
        }
        let mut rows: Vec<Vec<u64>> = Vec::new();
        let mut i: usize = 0;
        while i < n
            invariant
                n == self.rows@.len(),
                self.wf(n as int),
                other.wf(n as int),
                0 <= i <= n,
                rows@.len() == i,
                carry@.len() == n,
                forall|q: int|
                    0 <= q < n ==> #[trigger] carry@[q] as int == column_dot(
                        self@,
                        other@,
                        q,
                        i as int,
                        n as int,
                    ) as int % (UNIT as int),
                forall|p: int| 0 <= p < i ==> (#[trigger] rows@[p])@.len() == n,
                forall|p: int, q: int|
                    0 <= p < i && 0 <= q < n ==> #[trigger] rows@[p]@[q] as nat == product_entry(
                        self@,
                        other@,
                        p,
                        q,
                    ),
            decreases n - i,
        {
            let mut row: Vec<u64> = Vec::new();
            let mut j: usize = 0;
            while j < n
                invariant
                    n == self.rows@.len(),
                    self.wf(n as int),
                    other.wf(n as int),
                    0 <= i < n,
                    0 <= j <= n,
                    row@.len() == j,
                    carry@.len() == n,
                    forall|q: int|
                        0 <= q < j ==> #[trigger] carry@[q] as int == column_dot(
                            self@,
                            other@,
                            q,
                            i + 1,
                            n as int,
                        ) as int % (UNIT as int),
                    forall|q: int|
                        j <= q < n ==> #[trigger] carry@[q] as int == column_dot(
                            self@,
                            other@,
                            q,
                            i as int,
                            n as int,
                        ) as int % (UNIT as int),
                    forall|q: int|
                        0 <= q < j ==> #[trigger] row@[q] as nat == product_entry(
                            self@,
                            other@,
                            i as int,
                            q,
                        ),
                decreases n - j,
            {
                proof {
                    lemma_product_entry(self@, other@, i as int, j as int);
                }
                let mut acc: u128 = 0;
                let mut k: usize = 0;
                while k < n
                    invariant
                        n == self.rows@.len(),
                        self.wf(n as int),
                        other.wf(n as int),
                        0 <= i < n,
                        0 <= j < n,
                        0 <= k <= n,
                        acc == dot(self@, other@, i as int, j as int, k as int),
                    decreases n - k,
                {
                    let x: u64 = self.rows[i][k];
                    let y: u64 = other.rows[k][j];
                    assert(x as u128 * y as u128 <= 0xffff_ffff_ffff_ffff * 0xffff_ffff_ffff_ffff)
                        by (nonlinear_arith)
                        requires
                            x <= 0xffff_ffff_ffff_ffff,
                            y <= 0xffff_ffff_ffff_ffff,
                    ;
                    let term: u128 = x as u128 * y as u128;
                    proof {
                        assert(self@[i as int][k as int] == x as nat);
                        assert(other@[k as int][j as int] == y as nat);
                    }
                    match acc.checked_add(term) {
                        Some(next) => {
                            acc = next;
                        },
                        None => {
                            proof {
                                lemma_dot_grows(self@, other@, i as int, j as int, k + 1, n as int);
                                lemma_product_entry(self@, other@, i as int, j as int);
                                assert(product(self@, other@)[i as int][j as int] > u64::MAX);
                            }
                            return None;
                        },
                    }
                    k = k + 1;
                }
                let whole: u128 = match acc.checked_add(carry[j] as u128) {
                    Some(w) => w,
                    None => {
                        proof {
                            assert(product(self@, other@)[i as int][j as int] > u64::MAX);
                        }
                        return None;
                    },
                };
                let quotient: u128 = whole / (UNIT as u128);
                if quotient > u64::MAX as u128 {
                    proof {
                        assert(product(self@, other@)[i as int][j as int] > u64::MAX);
                    }
                    return None;
                }
                row.push(quotient as u64);
                carry.set(j, (whole % (UNIT as u128)) as u64);
                j = j + 1;
            }
            rows.push(row);
            i = i + 1;
        }
        let r = Matrix { rows };
        proof {
            assert forall|p: int| 0 <= p < n implies #[trigger] r@[p] =~= product(
                self@,
                other@,
            )[p] by {}
            assert(r@ =~= product(self@, other@));
        }
        Some(r)
    }

    /// The sum of `self` and `other`, if all its entries fit.
    pub fn plus(&self, other: &Matrix) -> (r: Option<Matrix>)
        requires
            self.wf(self.rows@.len() as int),
            other.wf(self.rows@.len() as int),
        ensures
            r is Some <==> fits(sum_of(self@, other@)),
            r is Some ==> r.unwrap().wf(self.rows@.len() as int),
            r is Some ==> r.unwrap()@ == sum_of(self@, other@),
    {
        let n: usize = self.rows.len();
        let mut rows: Vec<Vec<u64>> = Vec::new();
        let mut i: usize = 0;
        while i < n
            invariant
                n == self.rows@.len(),
                self.wf(n as int),
                other.wf(n as int),
                0 <= i <= n,
                rows@.len() == i,
                forall|p: int| 0 <= p < i ==> (#[trigger] rows@[p])@.len() == n,
                forall|p: int, q: int|
                    0 <= p < i && 0 <= q < n ==> #[trigger] rows@[p]@[q] as nat == self@[p][q]
                        + other@[p][q],
            decreases n - i,
        {
            let mut row: Vec<u64> = Vec::new();
            let mut j: usize = 0;
            while j < n
                invariant
                    n == self.rows@.len(),
                    self.wf(n as int),
                    other.wf(n as int),
                    0 <= i < n,
                    0 <= j <= n,
                    row@.len() == j,
                    forall|q: int|
                        0 <= q < j ==> #[trigger] row@[q] as nat == self@[i as int][q]
                            + other@[i as int][q],
                decreases n - j,
            {
                let x: u64 = self.rows[i][j];
                let y: u64 = other.rows[i][j];
                proof {
                    assert(self@[i as int][j as int] == x as nat);
                    assert(other@[i as int][j as int] == y as nat);
                }
                match x.checked_add(y) {
                    Some(v) => {
                        row.push(v);
                    },
                    None => {
                        proof {
                            assert(sum_of(self@, other@)[i as int][j as int] > u64::MAX);
                        }
                        return None;
                    },
                }
                j = j + 1;
            }
            rows.push(row);
            i = i + 1;
        }
        let r = Matrix { rows };
        proof {
            assert forall|p: int| 0 <= p < n implies #[trigger] r@[p] =~= sum_of(
                self@,
                other@,
            )[p] by {}
            assert(r@ =~= sum_of(self@, other@));
        }
        Some(r)
    }

    /// The sum of the entries of row `r` in the columns from `from` up to
    /// `to`, without it, if the sum fits.
    pub fn row_sum(&self, r: usize, from: usize, to: usize) -> (v: Option<u64>)
        requires
            self.wf(self.rows@.len() as int),
            r < self.rows@.len(),
            from <= to <= self.rows@.len(),
        ensures
            v is Some <==> span_sum(self@[r as int], from as int, to as int) <= u64::MAX,
            v is Some ==> v.unwrap() == span_sum(self@[r as int], from as int, to as int),
    {
        let mut acc: u64 = 0;
        let mut c: usize = from;
        while c < to
            invariant
                self.wf(self.rows@.len() as int),
                r < self.rows@.len(),
                from <= c <= to <= self.rows@.len(),
                acc == span_sum(self@[r as int], from as int, c as int),
            decreases to - c,
        {
            let x: u64 = self.rows[r][c];
            proof {
                assert(self@[r as int][c as int] == x as nat);
            }
            match acc.checked_add(x) {
                Some(next) => {
                    acc = next;
                },
                None => {
                    proof {
                        lemma_span_sum_grows(self@[r as int], from as int, c + 1, to as int);
                    }
                    return None;
                },
            }
            c = c + 1;
        }
        Some(acc)
    }
}

/// The sum of products does not fall as products are added.
pub proof fn lemma_dot_grows(a: Seq<Seq<nat>>, b: Seq<Seq<nat>>, i: int, j: int, k: int, n: int)
    requires
        k <= n,
    ensures
        dot(a, b, i, j, k) <= dot(a, b, i, j, n),
    decreases n - k,
{
    if k < n {
        lemma_dot_grows(a, b, i, j, k, n - 1);
    }
}

/// An entry of the product, from what the entries above it in its column
/// have left over.
pub proof fn lemma_product_entry(a: Seq<Seq<nat>>, b: Seq<Seq<nat>>, i: int, j: int)
    requires
        0 <= i < a.len(),
        0 <= j < a.len(),
    ensures
        product(a, b)[i].len() == a.len(),
        product(a, b)[i][j] == product_entry(a, b, i, j),
        product_entry(a, b, i, j) == (column_dot(a, b, j, i, a.len() as int) as int % (UNIT as int)
            + dot(a, b, i, j, a.len() as int)) / (UNIT as int),
        column_dot(a, b, j, i + 1, a.len() as int) as int % (UNIT as int) == (column_dot(
            a,
            b,
            j,
            i,
            a.len() as int,
        ) as int % (UNIT as int) + dot(a, b, i, j, a.len() as int)) % (UNIT as int),
        column_dot(a, b, j, 0, a.len() as int) == 0,
        0 <= column_dot(a, b, j, i, a.len() as int) as int % (UNIT as int) < UNIT,
{
    let n = a.len() as int;
    let before = column_dot(a, b, j, i, n) as int;
    let gained = dot(a, b, i, j, n) as int;
    assert(column_dot(a, b, j, i + 1, n) == before + gained);
    crate::rounding::lemma_carry(before, gained, UNIT as int);
}

/// Where the entries of a row of `a` are at most `bound`, its products with
/// a column of `b` add up to at most `bound` times the sum of the column.
pub proof fn lemma_dot_bound(
    a: Seq<Seq<nat>>,
    b: Seq<Seq<nat>>,
    i: int,
    j: int,
    k: int,
    bound: nat,
)
    requires
        forall|l: int| 0 <= l < k ==> #[trigger] a[i][l] <= bound,
    ensures
        dot(a, b, i, j, k) <= bound * column_sum(b, j, k),
    decreases k,
{
    if k > 0 {
        lemma_dot_bound(a, b, i, j, k - 1, bound);
        let x = a[i][k - 1] as int;
        let y = b[k - 1][j] as int;
        let s = column_sum(b, j, k - 1) as int;
        let u = bound as int;
        assert(a[i][k - 1] <= bound);
        assert(x * y <= u * y) by (nonlinear_arith)
            requires
                0 <= x <= u,
                0 <= y,
        ;
        assert(u * s + u * y == u * (s + y)) by (nonlinear_arith);
    } else {
        assert(bound * column_sum(b, j, k) >= 0) by (nonlinear_arith);
    }
}

/// The product of a matrix whose entries are at most one whole with a
/// matrix whose columns add up to one whole at most has entries of at most
/// one whole.
pub proof fn lemma_product_bounded(a: Seq<Seq<nat>>, b: Seq<Seq<nat>>)
    requires
        square(a, a.len() as int),
        square(b, a.len() as int),
        bounded(a, UNIT as nat),
        conserving(b),
    ensures
        square(product(a, b), a.len() as int),
        bounded(product(a, b), UNIT as nat),
{
    let n = a.len() as int;
    assert forall|i: int, j: int|
        0 <= i < product(a, b).len() && 0 <= j < product(a, b)[i].len() implies #[trigger] product(
        a,
        b,
    )[i][j] <= UNIT by {
        assert forall|l: int| 0 <= l < n implies #[trigger] a[i][l] <= UNIT as nat by {}
        lemma_dot_bound(a, b, i, j, n, UNIT as nat);
        lemma_product_entry(a, b, i, j);
        let d = dot(a, b, i, j, n) as int;
        let s = column_sum(b, j, n) as int;
        assert(s <= UNIT);
        assert(d <= 1_000_000 * 1_000_000) by (nonlinear_arith)
            requires
                d <= 1_000_000 * s,
                s <= 1_000_000,
        ;
    }
}

/// The first `rows` entries of a column of the product add up to what the
/// products of those rows with the column add up to, rounded down.
pub proof fn lemma_product_column(a: Seq<Seq<nat>>, b: Seq<Seq<nat>>, j: int, rows: int)
    requires
        0 <= rows <= a.len(),
        0 <= j < a.len(),
    ensures
        column_sum(product(a, b), j, rows) == scaled(column_dot(a, b, j, rows, a.len() as int)),
    decreases rows,
{
    if rows > 0 {
        lemma_product_column(a, b, j, rows - 1);
        lemma_product_entry(a, b, rows - 1, j);
    }
}

proof fn lemma_column_dot_step(a: Seq<Seq<nat>>, b: Seq<Seq<nat>>, j: int, rows: int, k: int)
    requires
        1 <= k,
    ensures
        column_dot(a, b, j, rows, k) == column_dot(a, b, j, rows, k - 1) + column_sum(
            a,
            k - 1,
            rows,
        ) * b[k - 1][j],
    decreases rows,
{
    let y = b[k - 1][j] as int;
    if rows > 0 {
        lemma_column_dot_step(a, b, j, rows - 1, k);
        let s = column_sum(a, k - 1, rows - 1) as int;
        let x = a[rows - 1][k - 1] as int;
        assert((s + x) * y == s * y + x * y) by (nonlinear_arith);
    } else {
        assert(0 * y == 0) by (nonlinear_arith);
    }
}

proof fn lemma_column_dot_none(a: Seq<Seq<nat>>, b: Seq<Seq<nat>>, j: int, rows: int)
    ensures
        column_dot(a, b, j, rows, 0) == 0,
    decreases rows,
{
    if rows > 0 {
        lemma_column_dot_none(a, b, j, rows - 1);
    }
}

/// Where each of the first `k` columns of `a` adds up to one whole, the
/// products of all rows of `a` with the first `k` entries of a column of `b`
/// add up to those entries, taken as wholes.
pub proof fn lemma_column_dot_balanced(a: Seq<Seq<nat>>, b: Seq<Seq<nat>>, j: int, k: int)
    requires
        0 <= k <= a.len(),
        forall|l: int| 0 <= l < k ==> #[trigger] column_sum(a, l, a.len() as int) == UNIT,
    ensures
        column_dot(a, b, j, a.len() as int, k) == UNIT * column_sum(b, j, k),
    decreases k,
{
    let n = a.len() as int;
    if k > 0 {
        lemma_column_dot_balanced(a, b, j, k - 1);
        lemma_column_dot_step(a, b, j, n, k);
        assert(column_sum(a, k - 1, n) == UNIT);
        let s = column_sum(a, k - 1, n) as int;
        let y = b[k - 1][j] as int;
        let before = column_sum(b, j, k - 1) as int;
        assert(s * y == 1_000_000 * y) by (nonlinear_arith)
            requires
                s == 1_000_000,
        ;
        assert(1_000_000 * before + 1_000_000 * y == 1_000_000 * (before + y))
            by (nonlinear_arith);
        assert(column_sum(b, j, k) == before + y);
    } else {
        lemma_column_dot_none(a, b, j, n);
    }
}

/// The product of two matrices whose columns add up to one whole has such
/// columns too: the product neither makes weight nor loses any.
pub proof fn lemma_product_balanced(a: Seq<Seq<nat>>, b: Seq<Seq<nat>>)
    requires
        square(a, a.len() as int),
        square(b, a.len() as int),
        balanced(a),
        balanced(b),
    ensures
        square(product(a, b), a.len() as int),
        balanced(product(a, b)),
{
    let n = a.len() as int;
    assert forall|c: int| 0 <= c < n implies #[trigger] column_sum(product(a, b), c, n)
        == UNIT by {
        lemma_product_column(a, b, c, n);
        lemma_column_dot_balanced(a, b, c, n);
        assert(column_sum(b, c, n) == UNIT);
    }
}

/// A column of the unit matrix has one whole in its own row.
pub proof fn lemma_identity_column(n: nat, c: int, k: int)
    requires
        0 <= c < n,
        0 <= k <= n,
    ensures
        column_sum(identity(n), c, k) == if c < k {
            UNIT as nat
        } else {
            0
        },
    decreases k,
{
    if k > 0 {
        lemma_identity_column(n, c, k - 1);
    }
}

/// The powers of a square matrix are square.
pub proof fn lemma_power_square(m: Seq<Seq<nat>>, k: nat)
    requires
        square(m, m.len() as int),
    ensures
        square(power(m, k), m.len() as int),
    decreases k,
{
    if k > 0 {
        lemma_power_square(m, (k - 1) as nat);
    }
}

/// The powers of a matrix whose columns add up to one whole have such
/// columns too.
pub proof fn lemma_power_balanced(m: Seq<Seq<nat>>, k: nat)
    requires
        square(m, m.len() as int),
        balanced(m),
    ensures
        square(power(m, k), m.len() as int),
        balanced(power(m, k)),
    decreases k,
{
    if k > 0 {
        lemma_power_balanced(m, (k - 1) as nat);
        lemma_product_balanced(power(m, (k - 1) as nat), m);
    } else {
        assert forall|c: int| 0 <= c < m.len() implies #[trigger] column_sum(
            identity(m.len()),
            c,
            m.len() as int,
        ) == UNIT by {
            lemma_identity_column(m.len(), c, m.len() as int);
        }
    }
}

proof fn lemma_dot_positive(a: Seq<Seq<nat>>, b: Seq<Seq<nat>>, i: int, j: int, k: int)
    requires
        dot(a, b, i, j, k) > 0,
    ensures
        exists|l: int| 0 <= l < k && #[trigger] a[i][l] > 0 && b[l][j] > 0,
    decreases k,
{
    if k > 0 {
        let x = a[i][k - 1] as int;
        let y = b[k - 1][j] as int;
        if x > 0 && y > 0 {
            assert(0 <= k - 1 < k && a[i][k - 1] > 0 && b[k - 1][j] > 0);
        } else {
            assert(x * y == 0) by (nonlinear_arith)
                requires
                    x == 0 || y == 0,
            ;
            lemma_dot_positive(a, b, i, j, k - 1);
            let l = choose|l: int| 0 <= l < k - 1 && #[trigger] a[i][l] > 0 && b[l][j] > 0;
            assert(0 <= l < k && a[i][l] > 0 && b[l][j] > 0);
        }
    }
}

/// An entry of the product is positive only where an entry of the row of
/// `a` and the entry below it in the column of `b` both are.
pub proof fn lemma_product_support(a: Seq<Seq<nat>>, b: Seq<Seq<nat>>, i: int, j: int)
    requires
        0 <= i < a.len(),
        0 <= j < a.len(),
        product(a, b)[i][j] > 0,
    ensures
        exists|l: int| 0 <= l < a.len() && #[trigger] a[i][l] > 0 && b[l][j] > 0,
{
    lemma_product_entry(a, b, i, j);
    if dot(a, b, i, j, a.len() as int) > 0 {
        lemma_dot_positive(a, b, i, j, a.len() as int);
    }
}

/// The indices of the nodes whose weight can be at the node of index `to`
/// after `k` steps: from each of them a walk of `k` positive entries leads
/// there.
pub open spec fn reaching(m: Seq<Seq<nat>>, to: int, k: nat) -> Set<int>
    decreases k,
{
    if k == 0 {
        Set::empty().insert(to)
    } else {
        let next = reaching(m, to, (k - 1) as nat);
        Set::new(|j: int| exists|l: int| 0 <= l < m.len() && m[l][j] > 0 && #[trigger] next.contains(l))
    }
}

/// Weight that starts at the node of index `from` can be at the node of
/// index `to` after `k` steps.
pub open spec fn flows(m: Seq<Seq<nat>>, from: int, to: int, k: nat) -> bool {
    reaching(m, to, k).contains(from)
}

/// A power of `m` is positive only where weight can be after so many steps.
pub proof fn lemma_power_support(m: Seq<Seq<nat>>, k: nat, i: int, j: int)
    requires
        square(m, m.len() as int),
        0 <= i < m.len(),
        0 <= j < m.len(),
        power(m, k)[i][j] > 0,
    ensures
        flows(m, j, i, k),
    decreases k,
{
    if k > 0 {
        let a = power(m, (k - 1) as nat);
        lemma_power_square(m, (k - 1) as nat);
        lemma_product_support(a, m, i, j);
        let l = choose|l: int| 0 <= l < a.len() && #[trigger] a[i][l] > 0 && m[l][j] > 0;
        lemma_power_support(m, (k - 1) as nat, i, l);
        let next = reaching(m, i, (k - 1) as nat);
        assert(0 <= l < m.len() && m[l][j] > 0 && next.contains(l));
    } else {
        assert(identity(m.len())[i][j] == if i == j {
            UNIT as nat
        } else {
            0
        });
    }
}

/// The sum of the first `d` entries of each of `rows` rows, from the row
/// `low` on.
pub open spec fn block_sum(g: Seq<Seq<nat>>, low: int, rows: int, d: int) -> nat
    decreases rows,
{
    if rows <= 0 {
        0
    } else {
        block_sum(g, low, rows - 1, d) + span_sum(g[low + rows - 1], 0, d)
    }
}

proof fn lemma_block_step(g: Seq<Seq<nat>>, low: int, rows: int, d: int)
    requires
        0 <= low,
        0 <= rows,
        1 <= d,
    ensures
        block_sum(g, low, rows, d) + column_sum(g, d - 1, low) == block_sum(g, low, rows, d - 1)
            + column_sum(g, d - 1, low + rows),
    decreases rows,
{
    if rows > 0 {
        lemma_block_step(g, low, rows - 1, d);
    }
}

proof fn lemma_block_none(g: Seq<Seq<nat>>, low: int, rows: int)
    ensures
        block_sum(g, low, rows, 0) == 0,
    decreases rows,
{
    if rows > 0 {
        lemma_block_none(g, low, rows - 1);
    }
}

/// Where each of the first `d` columns adds up to one whole and has nothing
/// in its first `low` rows, the first `d` entries of the rows from `low` on
/// add up to `d` wholes.
pub proof fn lemma_block_balanced(g: Seq<Seq<nat>>, low: int, d: int)
    requires
        0 <= low <= g.len(),
        0 <= d <= g.len(),
        forall|c: int| 0 <= c < d ==> #[trigger] column_sum(g, c, g.len() as int) == UNIT,
        forall|c: int| 0 <= c < d ==> #[trigger] column_sum(g, c, low) == 0,
    ensures
        block_sum(g, low, g.len() - low, d) == d * UNIT,
    decreases d,
{
    if d > 0 {
        lemma_block_balanced(g, low, d - 1);
        lemma_block_step(g, low, g.len() - low, d);
        assert(column_sum(g, d - 1, g.len() as int) == UNIT);
        assert(column_sum(g, d - 1, low) == 0);
    } else {
        lemma_block_none(g, low, g.len() - low);
    }
}

/// A column whose first `k` entries are nothing adds up to nothing there.
pub proof fn lemma_column_none(g: Seq<Seq<nat>>, c: int, k: int)
    requires
        forall|r: int| 0 <= r < k ==> #[trigger] g[r][c] == 0,
    ensures
        column_sum(g, c, k) == 0,
    decreases k,
{
    if k > 0 {
        lemma_column_none(g, c, k - 1);
    }
}

/// The powers of a matrix whose columns add up to one whole at most have
/// entries of at most one whole.
pub proof fn lemma_power_bounded(m: Seq<Seq<nat>>, k: nat)
    requires
        square(m, m.len() as int),
        conserving(m),
    ensures
        square(power(m, k), m.len() as int),
        bounded(power(m, k), UNIT as nat),
    decreases k,
{
    if k > 0 {
        lemma_power_bounded(m, (k - 1) as nat);
        lemma_product_bounded(power(m, (k - 1) as nat), m);
    }
}

/// The sum of the powers of such a matrix up to the `k`-th has entries of at
/// most `k + 1` wholes, and of one whole at least on the diagonal.
pub proof fn lemma_series_bounded(m: Seq<Seq<nat>>, k: nat)
    requires
        square(m, m.len() as int),
        conserving(m),
    ensures
        square(series(m, k), m.len() as int),
        bounded(series(m, k), (k + 1) * UNIT as nat),
        forall|i: int| 0 <= i < m.len() ==> #[trigger] series(m, k)[i][i] >= UNIT,
    decreases k,
{
    if k > 0 {
        lemma_series_bounded(m, (k - 1) as nat);
        lemma_power_bounded(m, k);
        let before = series(m, (k - 1) as nat);
        let p = power(m, k);
        assert forall|i: int, j: int|
            0 <= i < series(m, k).len() && 0 <= j < series(m, k)[i].len() implies #[trigger] series(
            m,
            k,
        )[i][j] <= (k + 1) * UNIT by {
            assert(before[i][j] <= k * UNIT);
            assert(p[i][j] <= UNIT);
        }
    }
}

/// Where the entries of a span are at most `bound`, they add up to at most
/// `bound` for each of them.
pub proof fn lemma_span_sum_bound(row: Seq<nat>, from: int, to: int, bound: nat)
    requires
        from <= to,
        forall|j: int| from <= j < to ==> #[trigger] row[j] <= bound,
    ensures
        span_sum(row, from, to) <= (to - from) * bound,
    decreases to - from,
{
    if from < to {
        lemma_span_sum_bound(row, from, to - 1, bound);
        assert(row[to - 1] <= bound);
        assert((to - 1 - from) * bound + bound == (to - from) * bound) by (nonlinear_arith);
    } else {
        assert((to - from) * bound == 0) by (nonlinear_arith)
            requires
                to - from == 0,
        ;
    }
}

/// The sum over a span is no less than an entry of the span.
pub proof fn lemma_span_sum_holds(row: Seq<nat>, from: int, to: int, i: int)
    requires
        from <= i < to,
    ensures
        row[i] <= span_sum(row, from, to),
    decreases to - from,
{
    if i < to - 1 {
        lemma_span_sum_holds(row, from, to - 1, i);
    }
}

/// The sum over a span does not fall as the span is made longer.
pub proof fn lemma_span_sum_grows(row: Seq<nat>, from: int, to: int, end: int)
    requires
        to <= end,
    ensures
        span_sum(row, from, to) <= span_sum(row, from, end),
    decreases end - to,
{
    if to < end {
        lemma_span_sum_grows(row, from, to, end - 1);
    }
}

} // verus!
