//! The mathematical model of a tableau, and the simplex method stated over it.
use vstd::prelude::*;
use crate::error::{Operand, SimplexError};

verus! {

/// Largest magnitude a stored entry may have (`i64::MAX`).
pub const ENTRY_LIMIT: i64 = 9223372036854775807;

/// Most pivots one solve performs before it gives up.
pub const MAX_PIVOTS: u64 = 1000000;

/// A tableau as integers over the common denominator `den`: the real tableau
/// is `rows[i][k] / den`.
///
/// Rows `0..m` are constraints, row `m` is the objective. Columns `0..n` are
/// the decision variables, `n..n+m` the slacks and `n+m` the right-hand side.
pub struct TableauView {
    pub rows: Seq<Seq<int>>,
    pub den: int,
    pub n: nat,
    pub basis: Seq<int>,
}

/// A solution: `values[v] / denominator` is variable `v`, and
/// `objective / denominator` the objective value.
pub struct SolutionView {
    pub values: Seq<int>,
    pub objective: int,
    pub denominator: int,
}

pub open spec fn limit() -> int {
    ENTRY_LIMIT as int
}

pub open spec fn fits(x: int) -> bool {
    -limit() <= x <= limit()
}

impl TableauView {
    pub open spec fn m(self) -> nat {
        self.basis.len()
    }

    /// Index of the right-hand-side column.
    pub open spec fn rhs(self) -> int {
        (self.n + self.m()) as int
    }

    pub open spec fn obj(self) -> Seq<int> {
        self.rows[self.m() as int]
    }

    pub open spec fn shaped(self) -> bool {
        &&& self.m() >= 1
        &&& self.n >= 1
        &&& self.rows.len() == self.m() + 1
        &&& forall|i: int| 0 <= i < self.rows.len() ==> #[trigger] self.rows[i].len() == self.rhs() + 1
    }

    pub open spec fn in_range(self) -> bool {
        &&& 0 < self.den <= limit()
        &&& forall|i: int, k: int|
            0 <= i < self.rows.len() && 0 <= k < self.rows[i].len() ==> fits(#[trigger] self.rows[i][k])
    }

    /// Column `basis[i]` is `den` in row `i` and zero in every other row.
    pub open spec fn basis_ok(self) -> bool {
        &&& forall|i: int| 0 <= i < self.m() ==> 0 <= #[trigger] self.basis[i] < self.rhs()
        &&& forall|i: int| 0 <= i < self.m() ==> #[trigger] self.rows[i][self.basis[i]] == self.den
        &&& forall|i: int, l: int|
            0 <= i < self.m() && 0 <= l <= self.m() && l != i ==> #[trigger] self.rows[l][self.basis[i]] == 0
    }

    /// Every constraint row has a non-negative right-hand side.
    pub open spec fn feasible(self) -> bool {
        forall|i: int| 0 <= i < self.m() ==> #[trigger] self.rows[i][self.rhs()] >= 0
    }

    pub open spec fn wf(self) -> bool {
        &&& self.shaped()
        &&& self.in_range()
        &&& self.basis_ok()
        &&& self.feasible()
    }

    /// No objective coefficient is negative: the Dantzig stopping condition.
    pub open spec fn optimal(self) -> bool {
        forall|k: int| 0 <= k < self.rhs() ==> #[trigger] self.obj()[k] >= 0
    }

    /// Column `j` has the most negative objective coefficient, and is the
    /// first column that has it.
    pub open spec fn is_entering(self, j: int) -> bool {
        &&& 0 <= j < self.rhs()
        &&& self.obj()[j] < 0
        &&& forall|k: int| 0 <= k < self.rhs() ==> self.obj()[j] <= #[trigger] self.obj()[k]
        &&& forall|k: int| 0 <= k < j ==> self.obj()[j] < #[trigger] self.obj()[k]
    }

    pub open spec fn entering(self) -> Option<int> {
        if exists|j: int| self.is_entering(j) {
            Some(choose|j: int| self.is_entering(j))
        } else {
            None
        }
    }

    /// The ratio of row `r` in column `j` is at most (`strict`: below) that
    /// of row `i`; both coefficients are positive, so this compares
    /// `rows[r][rhs] / rows[r][j]` with `rows[i][rhs] / rows[i][j]`.
    pub open spec fn ratio_le(self, r: int, i: int, j: int) -> bool {
        self.rows[r][self.rhs()] * self.rows[i][j] <= self.rows[i][self.rhs()] * self.rows[r][j]
    }

    pub open spec fn ratio_lt(self, r: int, i: int, j: int) -> bool {
        self.rows[r][self.rhs()] * self.rows[i][j] < self.rows[i][self.rhs()] * self.rows[r][j]
    }

    /// Row `r` wins the minimum ratio test for column `j`, ties going to the
    /// lowest row.
    pub open spec fn is_leaving(self, j: int, r: int) -> bool {
        &&& 0 <= r < self.m()
        &&& self.rows[r][j] > 0
        &&& forall|i: int| 0 <= i < self.m() && #[trigger] self.rows[i][j] > 0 ==> self.ratio_le(r, i, j)
        &&& forall|i: int| 0 <= i < r && #[trigger] self.rows[i][j] > 0 ==> self.ratio_lt(r, i, j)
    }

    pub open spec fn leaving(self, j: int) -> Option<int> {
        if exists|r: int| self.is_leaving(j, r) {
            Some(choose|r: int| self.is_leaving(j, r))
        } else {
            None
        }
    }

    /// Entry `(i, k)` after elimination on pivot `(r, j)`, before the common
    /// factor `den` is divided out.
    pub open spec fn raw(self, r: int, j: int, i: int, k: int) -> int {
        if i == r {
            self.den * self.rows[r][k]
        } else {
            self.rows[r][j] * self.rows[i][k] - self.rows[i][j] * self.rows[r][k]
        }
    }

    /// Whether `den` divides every entry after elimination.
    pub open spec fn raw_exact(self, r: int, j: int) -> bool {
        forall|i: int, k: int|
            0 <= i < self.rows.len() && 0 <= k < self.rows[i].len() ==> #[trigger] self.raw(r, j, i, k) % self.den == 0
    }

    /// The pivot on row `r` and column `j`: row `r` is kept (over the new
    /// denominator `rows[r][j]`), `j` is eliminated from every other row, and
    /// the old denominator is divided out wherever it divides evenly.
    pub open spec fn pivot(self, r: int, j: int) -> TableauView {
        let exact = self.raw_exact(r, j);
        TableauView {
            rows: Seq::new(
                self.rows.len(),
                |i: int|
                    Seq::new(
                        self.rows[i].len(),
                        |k: int|
                            if exact {
                                self.raw(r, j, i, k) / self.den
                            } else {
                                self.raw(r, j, i, k)
                            },
                    ),
            ),
            den: if exact {
                self.rows[r][j]
            } else {
                self.rows[r][j] * self.den
            },
            n: self.n,
            basis: self.basis.update(r, j),
        }
    }

    pub open spec fn pivot_fits(self, r: int, j: int) -> bool {
        self.pivot(r, j).in_range()
    }

    /// Whether some constraint row has column `v` basic.
    pub open spec fn is_basic(self, v: int) -> bool {
        exists|i: int| 0 <= i < self.m() && self.basis[i] == v
    }

    /// The value of column `v` in the basic solution, over `den`.
    pub open spec fn basic_value(self, v: int) -> int {
        if self.is_basic(v) {
            self.rows[choose|i: int| 0 <= i < self.m() && self.basis[i] == v][self.rhs()]
        } else {
            0
        }
    }

    pub open spec fn solution(self) -> SolutionView {
        SolutionView {
            values: Seq::new(self.n, |v: int| self.basic_value(v)),
            objective: self.obj()[self.rhs()],
            denominator: self.den,
        }
    }

    /// The tableau where the simplex method stops, with at most `fuel`
    /// further pivots: it is optimal, or its entering column has no leaving
    /// row, or the fuel is spent, or the next pivot would leave the range.
    pub open spec fn last(self, fuel: nat) -> TableauView
        decreases fuel,
    {
        match self.entering() {
            None => self,
            Some(j) => match self.leaving(j) {
                None => self,
                Some(r) => if fuel == 0 || !self.pivot_fits(r, j) {
                    self
                } else {
                    self.pivot(r, j).last((fuel - 1) as nat)
                },
            },
        }
    }

    /// Read over the denominators, `s` is the elimination on pivot `(r, j)`:
    /// row `r` divided by the pivot element, and every other row `i` less
    /// `rows[i][j]` times that new row.
    pub open spec fn eliminates(self, s: TableauView, r: int, j: int) -> bool {
        &&& forall|k: int| 0 <= k <= self.rhs() ==> #[trigger] s.rows[r][k] * self.rows[r][j] == self.rows[r][k] * s.den
        &&& forall|i: int, k: int| 0 <= i <= self.m() && i != r && 0 <= k <= self.rhs()
            ==> #[trigger] s.rows[i][k] * (self.den * self.rows[r][j])
                == (self.rows[r][j] * self.rows[i][k] - self.rows[i][j] * self.rows[r][k]) * s.den
    }

    /// The outcome of the simplex method from this tableau, with at most
    /// `fuel` further pivots.
    pub open spec fn run(self, fuel: nat) -> Result<SolutionView, SimplexError>
        decreases fuel,
    {
        match self.entering() {
            None => Ok(self.solution()),
            Some(j) => match self.leaving(j) {
                None => Err(SimplexError::Unbounded),
                Some(r) => if fuel == 0 {
                    Err(SimplexError::IterationLimit)
                } else if !self.pivot_fits(r, j) {
                    Err(SimplexError::Overflow)
                } else {
                    self.pivot(r, j).run((fuel - 1) as nat)
                },
            },
        }
    }
}

/// The first problem with the input `(a, b, c)`, if any.
pub open spec fn input_error(a: Seq<Seq<int>>, b: Seq<int>, c: Seq<int>) -> Option<SimplexError> {
    if a.len() == 0 {
        Some(SimplexError::EmptyConstraints)
    } else if a[0].len() == 0 {
        Some(SimplexError::EmptyVariables)
    } else if b.len() != a.len() {
        Some(
            SimplexError::DimensionMismatch {
                operand: Operand::Rhs,
                expected: a.len() as usize,
                found: b.len() as usize,
            },
        )
    } else if c.len() != a[0].len() {
        Some(
            SimplexError::DimensionMismatch {
                operand: Operand::Objective,
                expected: a[0].len() as usize,
                found: c.len() as usize,
            },
        )
    } else if exists|i: int| 0 <= i < a.len() && #[trigger] a[i].len() != a[0].len() {
        Some(SimplexError::RaggedConstraints)
    } else if exists|i: int| 0 <= i < b.len() && #[trigger] b[i] < 0 {
        Some(SimplexError::NegativeRHS)
    } else if (exists|i: int, k: int| 0 <= i < a.len() && 0 <= k < a[i].len() && !fits(#[trigger] a[i][k]))
        || (exists|i: int| 0 <= i < b.len() && !fits(#[trigger] b[i]))
        || (exists|k: int| 0 <= k < c.len() && !fits(#[trigger] c[k])) {
        Some(SimplexError::Overflow)
    } else {
        None
    }
}

/// The starting tableau: `[A | I | b]` over `[-c | 0 | 0]`, with the slacks
/// basic and denominator one.
pub open spec fn initial(a: Seq<Seq<int>>, b: Seq<int>, c: Seq<int>) -> TableauView {
    let m = a.len();
    let n = a[0].len();
    TableauView {
        rows: Seq::new(
            m + 1,
            |i: int|
                Seq::new(
                    n + m + 1,
                    |k: int|
                        if i < m {
                            if k < n {
                                a[i][k]
                            } else if k < n + m {
                                if k - n == i {
                                    1
                                } else {
                                    0
                                }
                            } else {
                                b[i]
                            }
                        } else if k < n {
                            -c[k]
                        } else {
                            0
                        },
                ),
        ),
        den: 1,
        n: n,
        basis: Seq::new(m, |i: int| n + i),
    }
}

/// What solving `(a, b, c)` yields: the first input problem, or the outcome
/// of the simplex method from the starting tableau.
pub open spec fn outcome(a: Seq<Seq<int>>, b: Seq<int>, c: Seq<int>) -> Result<SolutionView, SimplexError> {
    match input_error(a, b, c) {
        Some(e) => Err(e),
        None => initial(a, b, c).run(MAX_PIVOTS as nat),
    }
}

pub open spec fn ints(v: Seq<i64>) -> Seq<int> {
    v.map_values(|x: i64| x as int)
}

pub open spec fn int_rows(v: Seq<Vec<i64>>) -> Seq<Seq<int>> {
    v.map_values(|r: Vec<i64>| ints(r@))
}

} // verus!

verus! {

/// The starting tableau of an accepted input is well formed.
pub proof fn lemma_initial_wf(a: Seq<Seq<int>>, b: Seq<int>, c: Seq<int>)
    requires
        input_error(a, b, c) is None,
    ensures
        initial(a, b, c).wf(),
{
    let t = initial(a, b, c);
    let m = a.len() as int;
    let n = a[0].len() as int;
    assert forall|i: int| 0 <= i < m implies #[trigger] a[i].len() == n by {
        if a[i].len() != n {
            assert(0 <= i < a.len() && a[i].len() != a[0].len());
        }
    }
    assert forall|i: int, k: int| 0 <= i < t.rows.len() && 0 <= k < t.rows[i].len() implies fits(
        #[trigger] t.rows[i][k],
    ) by {
        if i < m && k < n {
            assert(0 <= i < a.len() && 0 <= k < a[i].len());
            assert(fits(a[i][k]));
        } else if i < m && k == n + m {
            assert(fits(b[i]));
        } else if i == m && k < n {
            assert(fits(c[k]));
        }
    }
    assert forall|i: int| 0 <= i < m implies #[trigger] t.rows[i][t.rhs()] >= 0 by {
        assert(0 <= i < b.len());
        assert(!(b[i] < 0));
    }
}

} // verus!

verus! {

pub proof fn lemma_entering_unique(t: TableauView, j1: int, j2: int)
    requires
        t.is_entering(j1),
        t.is_entering(j2),
    ensures
        j1 == j2,
{
    if j1 < j2 {
        assert(t.obj()[j2] < t.obj()[j1]);
    } else if j2 < j1 {
        assert(t.obj()[j1] < t.obj()[j2]);
    }
}

pub proof fn lemma_leaving_unique(t: TableauView, j: int, r1: int, r2: int)
    requires
        t.is_leaving(j, r1),
        t.is_leaving(j, r2),
    ensures
        r1 == r2,
{
    if r1 < r2 {
        assert(t.ratio_lt(r2, r1, j));
        assert(t.ratio_le(r1, r2, j));
    } else if r2 < r1 {
        assert(t.ratio_lt(r1, r2, j));
        assert(t.ratio_le(r2, r1, j));
    }
}

/// Ratios `x / dx < y / dy <= z / dz` give `x / dx < z / dz`.
pub proof fn lemma_ratio_trans(x: int, dx: int, y: int, dy: int, z: int, dz: int)
    requires
        dx > 0,
        dy > 0,
        dz > 0,
        x * dy < y * dx,
        y * dz <= z * dy,
    ensures
        x * dz < z * dx,
{
    assert(x * dy * dz < y * dx * dz) by (nonlinear_arith)
        requires x * dy < y * dx, dz > 0;
    assert(y * dz * dx <= z * dy * dx) by (nonlinear_arith)
        requires y * dz <= z * dy, dx > 0;
    assert(dy * (x * dz) < dy * (z * dx)) by (nonlinear_arith)
        requires x * dy * dz < y * dx * dz, y * dz * dx <= z * dy * dx;
    assert(x * dz < z * dx) by (nonlinear_arith)
        requires dy * (x * dz) < dy * (z * dx), dy > 0;
}

/// The product of two entries in range fits comfortably in an `i128`.
pub proof fn lemma_mul_fits(x: int, y: int)
    requires
        fits(x),
        fits(y),
    ensures
        -limit() * limit() <= x * y <= limit() * limit(),
        2 * limit() * limit() < i128::MAX,
{
    let l = limit();
    assert(-l * l <= x * y <= l * l) by (nonlinear_arith)
        requires -l <= x <= l, -l <= y <= l, l > 0;
}

} // verus!

verus! {

proof fn lemma_div_facts(y: int, d: int)
    requires
        d > 0,
    ensures
        (d * y) / d == y,
        (y * d) / d == y,
        0int / d == 0,
        y >= 0 ==> y / d >= 0,
{
    vstd::arithmetic::div_mod::lemma_div_multiples_vanish(y, d);
    assert(y * d == d * y) by (nonlinear_arith);
    if y >= 0 {
        vstd::arithmetic::div_mod::lemma_div_pos_is_pos(y, d);
    }
}

/// Any pivot on a positive entry of a constraint row keeps the shape and the
/// basic form: column `j` becomes the unit column of row `r`, and every other
/// basic column stays the unit column of its row.
pub proof fn lemma_pivot_keeps_form(t: TableauView, r: int, j: int)
    requires
        t.shaped(),
        t.basis_ok(),
        t.den > 0,
        0 <= r < t.m(),
        0 <= j < t.rhs(),
        t.rows[r][j] > 0,
    ensures
        t.pivot(r, j).shaped(),
        t.pivot(r, j).basis_ok(),
        t.pivot(r, j).n == t.n,
        t.pivot(r, j).m() == t.m(),
        t.pivot(r, j).basis[r] == j,
        forall|i: int| 0 <= i < t.m() && i != r ==> #[trigger] t.pivot(r, j).basis[i] == t.basis[i],
{
    let s = t.pivot(r, j);
    let d = t.den;
    let p = t.rows[r][j];
    let exact = t.raw_exact(r, j);
    let m = t.m() as int;
    assert(s.m() == t.m());
    assert(s.rhs() == t.rhs());
    assert forall|i: int| 0 <= i < m && i != r implies #[trigger] t.basis[i] != j by {
        assert(t.rows[r][t.basis[i]] == 0);
    }
    assert(forall|i: int| 0 <= i < s.rows.len() ==> #[trigger] s.rows[i].len() == s.rhs() + 1);
    // each entry of the pivoted tableau, before and after dividing by `den`
    assert forall|i: int, k: int| 0 <= i < t.rows.len() && 0 <= k < t.rows[i].len()
        implies #[trigger] s.rows[i][k] == if exact { t.raw(r, j, i, k) / d } else { t.raw(r, j, i, k) } by {}
    // the new basic column of row `r`
    assert(t.raw(r, j, r, j) == d * p);
    lemma_div_facts(p, d);
    assert(s.rows[r][j] == s.den) by {
        assert(d * p == p * d) by (nonlinear_arith);
    }
    assert forall|l: int| 0 <= l <= m && l != r implies #[trigger] s.rows[l][j] == 0 by {
        assert(t.raw(r, j, l, j) == 0) by (nonlinear_arith)
            requires t.raw(r, j, l, j) == p * t.rows[l][j] - t.rows[l][j] * p;
        lemma_div_facts(0, d);
    }
    // the basic columns of the other rows
    assert forall|i: int| 0 <= i < m && i != r implies #[trigger] s.rows[i][t.basis[i]] == s.den by {
        let b = t.basis[i];
        assert(t.rows[r][b] == 0);
        assert(t.raw(r, j, i, b) == p * d) by (nonlinear_arith)
            requires t.raw(r, j, i, b) == p * t.rows[i][b] - t.rows[i][j] * t.rows[r][b], t.rows[i][b] == d,
            t.rows[r][b] == 0;
        lemma_div_facts(p, d);
    }
    assert forall|i: int, l: int| 0 <= i < m && i != r && 0 <= l <= m && l != i
        implies #[trigger] s.rows[l][t.basis[i]] == 0 by {
        let b = t.basis[i];
        assert(t.rows[r][b] == 0);
        assert(t.rows[l][b] == 0 || l == r);
        if l == r {
            assert(t.raw(r, j, l, b) == 0) by (nonlinear_arith)
                requires t.raw(r, j, l, b) == d * t.rows[r][b], t.rows[r][b] == 0;
        } else {
            assert(t.raw(r, j, l, b) == 0) by (nonlinear_arith)
                requires t.raw(r, j, l, b) == p * t.rows[l][b] - t.rows[l][j] * t.rows[r][b], t.rows[l][b] == 0,
                t.rows[r][b] == 0;
        }
        lemma_div_facts(0, d);
    }
    assert forall|i: int| 0 <= i < m implies 0 <= #[trigger] s.basis[i] < s.rhs() && s.rows[i][s.basis[i]] == s.den by {
        if i != r {
            assert(s.basis[i] == t.basis[i]);
        }
    }
    assert forall|i: int, l: int| 0 <= i < m && 0 <= l <= m && l != i implies #[trigger] s.rows[l][s.basis[i]] == 0 by {
        if i != r {
            assert(s.basis[i] == t.basis[i]);
        }
    }
}

/// A pivot chosen by the entering and leaving rules keeps the tableau well
/// formed: the basic columns stay unit columns and every constraint row keeps
/// a non-negative right-hand side.
pub proof fn lemma_pivot_preserves_wf(t: TableauView, r: int, j: int)
    requires
        t.wf(),
        t.is_entering(j),
        t.is_leaving(j, r),
        t.pivot_fits(r, j),
    ensures
        t.pivot(r, j).wf(),
        t.pivot(r, j).feasible(),
{
    lemma_pivot_keeps_form(t, r, j);
    let s = t.pivot(r, j);
    let d = t.den;
    let p = t.rows[r][j];
    let exact = t.raw_exact(r, j);
    let m = t.m() as int;
    assert forall|i: int, k: int| 0 <= i < t.rows.len() && 0 <= k < t.rows[i].len()
        implies #[trigger] s.rows[i][k] == if exact { t.raw(r, j, i, k) / d } else { t.raw(r, j, i, k) } by {}
    // right-hand sides stay non-negative
    assert forall|i: int| 0 <= i < m implies #[trigger] s.rows[i][s.rhs()] >= 0 by {
        let c = t.rhs();
        let f = t.rows[i][j];
        assert(t.rows[r][c] >= 0);
        assert(t.rows[i][c] >= 0);
        if i == r {
            assert(t.raw(r, j, i, c) >= 0) by (nonlinear_arith)
                requires t.raw(r, j, i, c) == d * t.rows[r][c], d > 0, t.rows[r][c] >= 0;
        } else if f > 0 {
            assert(t.ratio_le(r, i, j));
            assert(t.raw(r, j, i, c) >= 0) by (nonlinear_arith)
                requires t.raw(r, j, i, c) == p * t.rows[i][c] - f * t.rows[r][c],
                t.rows[r][c] * f <= t.rows[i][c] * p;
        } else {
            assert(t.raw(r, j, i, c) >= 0) by (nonlinear_arith)
                requires t.raw(r, j, i, c) == p * t.rows[i][c] - f * t.rows[r][c], p > 0, f <= 0,
                t.rows[r][c] >= 0, t.rows[i][c] >= 0;
        }
        lemma_div_facts(t.raw(r, j, i, c), d);
    }
}

} // verus!

verus! {

/// No column is basic in two rows.
pub proof fn lemma_basis_distinct(t: TableauView)
    requires
        t.wf(),
    ensures
        forall|i1: int, i2: int| 0 <= i1 < t.m() && 0 <= i2 < t.m() && i1 != i2 ==> #[trigger] t.basis[i1] != #[trigger] t.basis[i2],
{
    assert forall|i1: int, i2: int| 0 <= i1 < t.m() && 0 <= i2 < t.m() && i1 != i2 implies #[trigger] t.basis[i1] != #[trigger] t.basis[i2] by {
        assert(t.rows[i2][t.basis[i1]] == 0);
        assert(t.rows[i2][t.basis[i2]] == t.den);
    }
}

} // verus!

verus! {

/// The pivot is the Gauss-Jordan elimination on `(r, j)`, read over the
/// common denominators.
pub proof fn lemma_pivot_eliminates(t: TableauView, r: int, j: int)
    requires
        t.shaped(),
        t.den > 0,
        0 <= r < t.m(),
        0 <= j < t.rhs(),
        t.rows[r][j] > 0,
    ensures
        t.eliminates(t.pivot(r, j), r, j),
{
    let s = t.pivot(r, j);
    let d = t.den;
    let p = t.rows[r][j];
    let c = t.rhs();
    let exact = t.raw_exact(r, j);
    let g: int = if exact { d } else { 1 };
    assert(g * s.den == p * d) by (nonlinear_arith)
        requires exact ==> g == d && s.den == p, !exact ==> g == 1 && s.den == p * d;
    assert forall|i: int, k: int| 0 <= i <= t.m() && 0 <= k <= c implies #[trigger] t.raw(r, j, i, k) == s.rows[i][k] * g by {
        if exact {
            vstd::arithmetic::div_mod::lemma_fundamental_div_mod(t.raw(r, j, i, k), d);
        }
        let x = s.rows[i][k];
        assert(g * x == x * g) by (nonlinear_arith);
    }
    assert forall|k: int| 0 <= k <= c implies #[trigger] s.rows[r][k] * p == t.rows[r][k] * s.den by {
        let (x, y) = (s.rows[r][k], t.rows[r][k]);
        assert(t.raw(r, j, r, k) == x * g);
        assert(x * p == y * s.den) by (nonlinear_arith)
            requires x * g == d * y, g * s.den == p * d, d > 0;
    }
    assert forall|i: int, k: int| 0 <= i <= t.m() && i != r && 0 <= k <= c
        implies #[trigger] s.rows[i][k] * (d * p) == (p * t.rows[i][k] - t.rows[i][j] * t.rows[r][k]) * s.den by {
        let x = s.rows[i][k];
        let w = p * t.rows[i][k] - t.rows[i][j] * t.rows[r][k];
        assert(t.raw(r, j, i, k) == x * g);
        assert(x * (d * p) == w * s.den) by (nonlinear_arith)
            requires x * g == w, g * s.den == p * d;
    }
}

/// The run stops in a well-formed tableau of the same shape.
pub proof fn lemma_last_wf(t: TableauView, fuel: nat)
    requires
        t.wf(),
    ensures
        t.last(fuel).wf(),
        t.last(fuel).n == t.n,
        t.last(fuel).m() == t.m(),
    decreases fuel,
{
    if let Some(j) = t.entering() {
        if let Some(r) = t.leaving(j) {
            if fuel > 0 && t.pivot_fits(r, j) {
                lemma_pivot_preserves_wf(t, r, j);
                lemma_pivot_keeps_form(t, r, j);
                lemma_last_wf(t.pivot(r, j), (fuel - 1) as nat);
            }
        }
    }
}

} // verus!
