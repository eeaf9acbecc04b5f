//! The simplex tableau and its pivoting engine.
use vstd::prelude::*;
use crate::error::{Operand, SimplexError};
use crate::model::{
    TableauView, SolutionView, ENTRY_LIMIT, MAX_PIVOTS, initial, input_error, ints, int_rows, lemma_initial_wf, lemma_last_wf,
    lemma_entering_unique, lemma_leaving_unique, lemma_ratio_trans, lemma_mul_fits, lemma_pivot_preserves_wf,
    fits, lemma_basis_distinct, lemma_pivot_keeps_form, lemma_pivot_eliminates,
};

verus! {

/// A dense simplex tableau in integers over one positive denominator.
pub struct Tableau {
    /// Constraint rows, then the objective row; the last column is the
    /// right-hand side.
    matrix: Vec<Vec<i64>>,
    /// Common denominator of every entry of `matrix`.
    denominator: i64,
    /// Number of decision variables, excluding the slacks.
    num_original_vars: usize,
    /// The column basic in each constraint row.
    basic_vars: Vec<usize>,
}

impl View for Tableau {
    type V = TableauView;

    closed spec fn view(&self) -> TableauView {
        TableauView {
            rows: int_rows(self.matrix@),
            den: self.denominator as int,
            n: self.num_original_vars as nat,
            basis: self.basic_vars@.map_values(|v: usize| v as int),
        }
    }
}

/// Every vector in memory is at most `isize::MAX` long.
pub open spec fn lengths_ok(a: Seq<Vec<i64>>) -> bool {
    &&& a.len() <= isize::MAX
    &&& forall|i: int| 0 <= i < a.len() ==> #[trigger] a[i]@.len() <= isize::MAX
}

/// An optimal basic solution: variable `v` is `values[v] / denominator` and
/// the objective value is `objective / denominator`.
#[derive(Debug)]
pub struct Solution {
    pub values: Vec<i64>,
    pub objective: i64,
    pub denominator: i64,
}

impl View for Solution {
    type V = SolutionView;

    open spec fn view(&self) -> SolutionView {
        SolutionView {
            values: ints(self.values@),
            objective: self.objective as int,
            denominator: self.denominator as int,
        }
    }
}

/// A solve result with the solution seen through its view.
pub open spec fn result_view(r: Result<Solution, SimplexError>) -> Result<SolutionView, SimplexError> {
    match r {
        Ok(s) => Ok(s@),
        Err(e) => Err(e),
    }
}

/// `x / d` when `d` divides `x`, else `None`.
fn divide_exact(x: i128, d: i128) -> (r: Option<i128>)
    requires
        d > 0,
        x > i128::MIN,
    ensures
        match r {
            Some(q) => x % d == 0 && q == x / d,
            None => x % d != 0,
        },
{
    let ax: i128 = if x < 0 { -x } else { x };
    let q = ax / d;
    let rem = ax % d;
    proof {
        vstd::arithmetic::div_mod::lemma_fundamental_div_mod(ax as int, d as int);
        vstd::arithmetic::div_mod::lemma_fundamental_div_mod(x as int, d as int);
    }
    if rem == 0 {
        let signed_q: i128 = if x < 0 { -q } else { q };
        proof {
            assert(x == signed_q * d) by (nonlinear_arith)
                requires ax == d * q, x < 0 ==> ax == -x && signed_q == -q, x >= 0 ==> ax == x && signed_q == q;
            vstd::arithmetic::div_mod::lemma_mod_multiples_basic(signed_q as int, d as int);
            vstd::arithmetic::div_mod::lemma_div_multiples_vanish(signed_q as int, d as int);
            assert(d * signed_q == signed_q * d) by (nonlinear_arith);
        }
        Some(signed_q)
    } else {
        proof {
            if x % d == 0 {
                let xq = x as int / d as int;
                let aq: int = if x < 0 { -xq } else { xq };
                assert(ax == aq * d) by (nonlinear_arith)
                    requires x == d * xq, x < 0 ==> ax == -x && aq == -xq, x >= 0 ==> ax == x && aq == xq;
                vstd::arithmetic::div_mod::lemma_mod_multiples_basic(aq, d as int);
            }
        }
        None
    }
}

impl Tableau {
    proof fn lemma_view(&self)
        ensures
            self@.rows.len() == self.matrix@.len(),
            self@.basis.len() == self.basic_vars@.len(),
            forall|i: int| 0 <= i < self.basic_vars@.len() ==> #[trigger] self@.basis[i] == self.basic_vars@[i] as int,
            forall|i: int| 0 <= i < self.matrix@.len() ==> #[trigger] self@.rows[i].len() == self.matrix@[i]@.len(),
            forall|i: int, k: int| 0 <= i < self.matrix@.len() && 0 <= k < self.matrix@[i]@.len()
                ==> #[trigger] self@.rows[i][k] == self.matrix@[i]@[k] as int,
    {
        assert forall|i: int| 0 <= i < self.matrix@.len() implies #[trigger] self@.rows[i] == ints(self.matrix@[i]@) by {}
    }

    /// Builds the starting tableau of: maximise `c·x` subject to `a·x <= b`,
    /// `x >= 0`, after checking the input in order.
    #[verifier::loop_isolation(false)]
    pub fn new(a: &Vec<Vec<i64>>, b: &Vec<i64>, c: &Vec<i64>) -> (r: Result<Self, SimplexError>)
        requires
            lengths_ok(a@),
        ensures
            match r {
                Ok(t) => input_error(int_rows(a@), ints(b@), ints(c@)) is None
                    && t@ == initial(int_rows(a@), ints(b@), ints(c@)) && t@.wf(),
                Err(e) => input_error(int_rows(a@), ints(b@), ints(c@)) == Some(e),
            },
    {
        let ghost ga = int_rows(a@);
        let ghost gb = ints(b@);
        let ghost gc = ints(c@);
        let num_constraints = a.len();
        if num_constraints == 0 {
            return Err(SimplexError::EmptyConstraints);
        }
        let num_vars = a[0].len();
        if num_vars == 0 {
            return Err(SimplexError::EmptyVariables);
        }
        if b.len() != num_constraints {
            return Err(
                SimplexError::DimensionMismatch {
                    operand: Operand::Rhs,
                    expected: num_constraints,
                    found: b.len(),
                },
            );
        }
        if c.len() != num_vars {
            return Err(
                SimplexError::DimensionMismatch {
                    operand: Operand::Objective,
                    expected: num_vars,
                    found: c.len(),
                },
            );
        }
        let mut i: usize = 0;
        while i < num_constraints
            invariant
                i <= num_constraints == a@.len(),
                num_vars == a@[0]@.len(),
                forall|i2: int| 0 <= i2 < i ==> #[trigger] a@[i2]@.len() == num_vars,
            decreases num_constraints - i,
        {
            if a[i].len() != num_vars {
                assert(ga[i as int].len() != ga[0].len());
                return Err(SimplexError::RaggedConstraints);
            }
            i = i + 1;
        }
        assert(!exists|i2: int| 0 <= i2 < ga.len() && #[trigger] ga[i2].len() != ga[0].len());
        let mut i: usize = 0;
        while i < num_constraints
            invariant
                i <= num_constraints == b@.len(),
                forall|i2: int| 0 <= i2 < i ==> #[trigger] b@[i2] >= 0,
            decreases num_constraints - i,
        {
            if b[i] < 0 {
                assert(gb[i as int] < 0);
                return Err(SimplexError::NegativeRHS);
            }
            i = i + 1;
        }
        assert(!exists|i2: int| 0 <= i2 < gb.len() && #[trigger] gb[i2] < 0);
        let mut i: usize = 0;
        while i < num_constraints
            invariant
                i <= num_constraints == a@.len(),
                forall|i2: int| 0 <= i2 < num_constraints ==> #[trigger] a@[i2]@.len() == num_vars,
                forall|i2: int, k: int| 0 <= i2 < i && 0 <= k < num_vars ==> #[trigger] a@[i2]@[k] != i64::MIN,
            decreases num_constraints - i,
        {
            let mut k: usize = 0;
            while k < num_vars
                invariant
                    i < num_constraints == a@.len(),
                    k <= num_vars == a@[i as int]@.len(),
                    forall|k2: int| 0 <= k2 < k ==> #[trigger] a@[i as int]@[k2] != i64::MIN,
                decreases num_vars - k,
            {
                if a[i][k] == i64::MIN {
                    assert(0 <= i < ga.len() && 0 <= k < ga[i as int].len() && !fits(ga[i as int][k as int]));
                    return Err(SimplexError::Overflow);
                }
                k = k + 1;
            }
            i = i + 1;
        }
        let mut k: usize = 0;
        while k < num_vars
            invariant
                k <= num_vars == c@.len(),
                forall|k2: int| 0 <= k2 < k ==> #[trigger] c@[k2] != i64::MIN,
            decreases num_vars - k,
        {
            if c[k] == i64::MIN {
                assert(0 <= k < gc.len() && !fits(gc[k as int]));
                return Err(SimplexError::Overflow);
            }
            k = k + 1;
        }
        assert forall|i2: int| 0 <= i2 < gb.len() implies fits(#[trigger] gb[i2]) by {
            assert(b@[i2] >= 0);
        }
        assert(input_error(ga, gb, gc) is None);
        let ghost t0 = initial(ga, gb, gc);
        proof {
            lemma_initial_wf(ga, gb, gc);
        }
        let width = num_vars + num_constraints + 1;
        let mut matrix: Vec<Vec<i64>> = Vec::with_capacity(num_constraints + 1);
        let mut i: usize = 0;
        while i < num_constraints
            invariant
                i <= num_constraints == a@.len() == b@.len(),
                num_vars == c@.len(),
                width == num_vars + num_constraints + 1,
                t0 == initial(ga, gb, gc),
                ga == int_rows(a@),
                gb == ints(b@),
                forall|i2: int| 0 <= i2 < num_constraints ==> #[trigger] a@[i2]@.len() == num_vars,
                matrix@.len() == i,
                forall|i2: int| 0 <= i2 < i ==> #[trigger] ints(matrix@[i2]@) == t0.rows[i2],
            decreases num_constraints - i,
        {
            let mut row: Vec<i64> = Vec::with_capacity(width);
            let mut k: usize = 0;
            while k < num_vars
                invariant
                    i < num_constraints == a@.len(),
                    num_vars == a@[i as int]@.len(),
                    k <= num_vars,
                    row@.len() == k,
                    forall|k2: int| 0 <= k2 < k ==> #[trigger] row@[k2] == a@[i as int]@[k2],
                decreases num_vars - k,
            {
                row.push(a[i][k]);
                k = k + 1;
            }
            let mut s: usize = 0;
            while s < num_constraints
                invariant
                    s <= num_constraints,
                    row@.len() == num_vars + s,
                    forall|k2: int| 0 <= k2 < num_vars ==> #[trigger] row@[k2] == a@[i as int]@[k2],
                    forall|s2: int| 0 <= s2 < s ==> #[trigger] row@[num_vars + s2] == if s2 == i { 1i64 } else { 0i64 },
                decreases num_constraints - s,
            {
                row.push(if s == i { 1 } else { 0 });
                s = s + 1;
            }
            row.push(b[i]);
            assert(ints(row@) =~= t0.rows[i as int]) by {
                assert forall|k2: int| 0 <= k2 < width implies ints(row@)[k2] == t0.rows[i as int][k2] by {
                    if num_vars <= k2 < num_vars + num_constraints {
                        assert(row@[num_vars + (k2 - num_vars)] == if k2 - num_vars == i { 1i64 } else { 0i64 });
                    }
                }
            }
            matrix.push(row);
            i = i + 1;
        }
        let mut row: Vec<i64> = Vec::with_capacity(width);
        let mut k: usize = 0;
        while k < num_vars
            invariant
                k <= num_vars == c@.len(),
                row@.len() == k,
                forall|k2: int| 0 <= k2 < num_vars ==> #[trigger] c@[k2] != i64::MIN,
                forall|k2: int| 0 <= k2 < k ==> #[trigger] row@[k2] == -c@[k2],
            decreases num_vars - k,
        {
            row.push(-c[k]);
            k = k + 1;
        }
        let mut s: usize = 0;
        while s <= num_constraints
            invariant
                s <= num_constraints + 1,
                row@.len() == num_vars + s,
                forall|k2: int| 0 <= k2 < num_vars ==> #[trigger] row@[k2] == -c@[k2],
                forall|k2: int| num_vars <= k2 < num_vars + s ==> #[trigger] row@[k2] == 0,
            decreases num_constraints + 1 - s,
        {
            row.push(0);
            s = s + 1;
        }
        assert(ints(row@) =~= t0.rows[num_constraints as int]);
        matrix.push(row);
        let mut basic_vars: Vec<usize> = Vec::with_capacity(num_constraints);
        let mut i: usize = 0;
        while i < num_constraints
            invariant
                i <= num_constraints,
                basic_vars@.len() == i,
                forall|i2: int| 0 <= i2 < i ==> #[trigger] basic_vars@[i2] == num_vars + i2,
            decreases num_constraints - i,
        {
            basic_vars.push(num_vars + i);
            i = i + 1;
        }
        let t = Tableau { matrix, denominator: 1, num_original_vars: num_vars, basic_vars };
        assert(t@.rows =~= t0.rows);
        assert(t@.basis =~= t0.basis);
        Ok(t)
    }

    /// The column with the most negative objective coefficient (the first
    /// such column), or `None` when no coefficient is negative.
    #[verifier::loop_isolation(false)]
    fn find_entering_var(&self) -> (r: Option<usize>)
        requires
            self@.wf(),
        ensures
            match r {
                Some(j) => self@.entering() == Some(j as int),
                None => self@.entering() is None && self@.optimal(),
            },
    {
        let ghost t = self@;
        proof {
            self.lemma_view();
        }
        let obj_idx = self.matrix.len() - 1;
        assert(t.rows[obj_idx as int].len() == t.rhs() + 1);
        let num_cols = self.matrix[obj_idx].len() - 1;
        let mut min_coef: i64 = 0;
        let mut entering_var: Option<usize> = None;
        let mut j: usize = 0;
        while j < num_cols
            invariant
                obj_idx == t.m(),
                num_cols == t.rhs(),
                j <= num_cols,
                match entering_var {
                    None => min_coef == 0 && forall|k: int| 0 <= k < j ==> #[trigger] t.obj()[k] >= 0,
                    Some(e) => e < j && min_coef == t.obj()[e as int] && min_coef < 0
                        && (forall|k: int| 0 <= k < j ==> min_coef <= #[trigger] t.obj()[k])
                        && (forall|k: int| 0 <= k < e ==> min_coef < #[trigger] t.obj()[k]),
                },
            decreases num_cols - j,
        {
            let v = self.matrix[obj_idx][j];
            if v < min_coef {
                min_coef = v;
                entering_var = Some(j);
            }
            j = j + 1;
        }
        proof {
            match entering_var {
                Some(e) => {
                    assert(t.is_entering(e as int));
                    lemma_entering_unique(t, e as int, choose|j: int| t.is_entering(j));
                },
                None => {
                    assert forall|j: int| !t.is_entering(j) by {
                        if t.is_entering(j) {
                            assert(t.obj()[j] >= 0);
                        }
                    }
                },
            }
        }
        entering_var
    }

    /// The constraint row that wins the minimum ratio test for column `j`
    /// (the first such row), or `None` when no row has a positive
    /// coefficient in `j`.
    #[verifier::loop_isolation(false)]
    fn find_leaving_var(&self, j: usize) -> (r: Option<usize>)
        requires
            self@.wf(),
            j < self@.rhs(),
        ensures
            match r {
                Some(row) => self@.leaving(j as int) == Some(row as int),
                None => self@.leaving(j as int) is None,
            },
    {
        let ghost t = self@;
        proof {
            self.lemma_view();
        }
        let num_rows = self.matrix.len() - 1;
        assert(t.rows[0].len() == t.rhs() + 1);
        let rhs = self.matrix[0].len() - 1;
        let mut leaving_row: Option<usize> = None;
        let mut i: usize = 0;
        while i < num_rows
            invariant
                num_rows == t.m(),
                rhs == t.rhs(),
                i <= num_rows,
                match leaving_row {
                    None => forall|i2: int| 0 <= i2 < i ==> #[trigger] t.rows[i2][j as int] <= 0,
                    Some(r) => r < i && t.rows[r as int][j as int] > 0
                        && (forall|i2: int| 0 <= i2 < i && #[trigger] t.rows[i2][j as int] > 0
                            ==> t.ratio_le(r as int, i2, j as int))
                        && (forall|i2: int| 0 <= i2 < r && #[trigger] t.rows[i2][j as int] > 0
                            ==> t.ratio_lt(r as int, i2, j as int)),
                },
            decreases num_rows - i,
        {
            assert(t.rows[i as int].len() == t.rhs() + 1);
            let coef = self.matrix[i][j];
            if coef > 0 {
                match leaving_row {
                    None => {
                        leaving_row = Some(i);
                    },
                    Some(r) => {
                        let ri = self.matrix[i][rhs];
                        let rr = self.matrix[r][rhs];
                        let cr = self.matrix[r][j];
                        proof {
                            assert(t.rows[r as int].len() == t.rhs() + 1);
                            assert(fits(t.rows[i as int][rhs as int]));
                            assert(fits(t.rows[r as int][rhs as int]));
                            assert(fits(t.rows[r as int][j as int]));
                            assert(fits(t.rows[i as int][j as int]));
                            lemma_mul_fits(ri as int, cr as int);
                            lemma_mul_fits(rr as int, coef as int);
                        }
                        if (ri as i128) * (cr as i128) < (rr as i128) * (coef as i128) {
                            proof {
                                assert forall|i2: int| 0 <= i2 < i && #[trigger] t.rows[i2][j as int] > 0
                                    implies t.ratio_lt(i as int, i2, j as int) by {
                                    assert(t.ratio_le(r as int, i2, j as int));
                                    lemma_ratio_trans(
                                        ri as int, coef as int, rr as int, cr as int,
                                        t.rows[i2][t.rhs()], t.rows[i2][j as int],
                                    );
                                }
                            }
                            leaving_row = Some(i);
                        }
                    },
                }
            }
            i = i + 1;
        }
        proof {
            match leaving_row {
                Some(r) => {
                    assert(t.is_leaving(j as int, r as int));
                    lemma_leaving_unique(t, j as int, r as int, choose|r2: int| t.is_leaving(j as int, r2));
                },
                None => {
                    assert forall|r2: int| !t.is_leaving(j as int, r2) by {
                        if t.is_leaving(j as int, r2) {
                            assert(t.rows[r2][j as int] <= 0);
                        }
                    }
                },
            }
        }
        leaving_row
    }

    /// Gauss-Jordan elimination on row `leaving_row` and column
    /// `entering_var`, which then becomes basic in that row. Fails, leaving
    /// the tableau as it was, when an entry leaves the range of `i64`.
    #[verifier::loop_isolation(false)]
    fn pivot(&mut self, leaving_row: usize, entering_var: usize) -> (res: Result<(), SimplexError>)
        requires
            old(self)@.wf(),
            leaving_row < old(self)@.m(),
            entering_var < old(self)@.rhs(),
            old(self)@.rows[leaving_row as int][entering_var as int] > 0,
        ensures
            match res {
                Ok(_) => old(self)@.pivot_fits(leaving_row as int, entering_var as int)
                    && final(self)@ == old(self)@.pivot(leaving_row as int, entering_var as int)
                    && old(self)@.eliminates(final(self)@, leaving_row as int, entering_var as int)
                    && final(self)@.shaped() && final(self)@.basis_ok() && final(self)@.in_range()
                    && final(self)@.n == old(self)@.n && final(self)@.m() == old(self)@.m(),
                Err(e) => e == SimplexError::Overflow
                    && !old(self)@.pivot_fits(leaving_row as int, entering_var as int)
                    && final(self)@ == old(self)@,
            },
    {
        let ghost t = self@;
        let ghost r = leaving_row as int;
        let ghost j = entering_var as int;
        let ghost s = t.pivot(r, j);
        proof {
            self.lemma_view();
        }
        let num_rows = self.matrix.len();
        assert(t.rows[0].len() == t.rhs() + 1);
        assert(t.rows[r].len() == t.rhs() + 1);
        let num_cols = self.matrix[0].len();
        let d = self.denominator as i128;
        let p = self.matrix[leaving_row][entering_var] as i128;
        // eliminate the entering column, keeping the common factor `d`
        let mut raw: Vec<Vec<i128>> = Vec::with_capacity(num_rows);
        let mut exact = true;
        let mut i: usize = 0;
        while i < num_rows
            invariant
                i <= num_rows,
                raw@.len() == i,
                forall|i2: int| 0 <= i2 < i ==> #[trigger] raw@[i2]@.len() == num_cols,
                forall|i2: int, k: int| 0 <= i2 < i && 0 <= k < num_cols ==> #[trigger] raw@[i2]@[k] == t.raw(r, j, i2, k),
                forall|i2: int, k: int| 0 <= i2 < i && 0 <= k < num_cols ==> #[trigger] raw@[i2]@[k] > i128::MIN,
                exact <==> forall|i2: int, k: int| 0 <= i2 < i && 0 <= k < num_cols ==> #[trigger] t.raw(r, j, i2, k) % t.den == 0,
            decreases num_rows - i,
        {
            assert(t.rows[i as int].len() == t.rhs() + 1);
            let f = self.matrix[i][entering_var] as i128;
            let ghost exact_before = exact;
            let mut row: Vec<i128> = Vec::with_capacity(num_cols);
            let mut k: usize = 0;
            while k < num_cols
                invariant
                    k <= num_cols,
                    row@.len() == k,
                    forall|k2: int| 0 <= k2 < k ==> #[trigger] row@[k2] == t.raw(r, j, i as int, k2),
                    forall|k2: int| 0 <= k2 < k ==> #[trigger] row@[k2] > i128::MIN,
                    exact <==> exact_before && forall|k2: int| 0 <= k2 < k ==> #[trigger] t.raw(r, j, i as int, k2) % t.den == 0,
                decreases num_cols - k,
            {
                let a_rk = self.matrix[leaving_row][k] as i128;
                assert(fits(t.rows[r][k as int]));
                let x: i128 = if i == leaving_row {
                    proof {
                        lemma_mul_fits(d as int, a_rk as int);
                    }
                    d * a_rk
                } else {
                    let a_ik = self.matrix[i][k] as i128;
                    assert(fits(t.rows[i as int][k as int]));
                    assert(fits(t.rows[i as int][j]));
                    assert(fits(t.rows[r][j]));
                    proof {
                        lemma_mul_fits(p as int, a_ik as int);
                        lemma_mul_fits(f as int, a_rk as int);
                    }
                    p * a_ik - f * a_rk
                };
                assert(x as int == t.raw(r, j, i as int, k as int));
                if divide_exact(x, d).is_none() {
                    exact = false;
                }
                row.push(x);
                k = k + 1;
            }
            raw.push(row);
            i = i + 1;
        }
        // divide out `d` where it divides evenly, and check the range
        assert(fits(t.rows[r][j]));
        proof {
            lemma_mul_fits(p as int, d as int);
        }
        let new_den: i128 = if exact { p } else { p * d };
        assert(new_den as int == s.den);
        assert(new_den > 0) by (nonlinear_arith)
            requires new_den == p || new_den == p * d, p > 0, d > 0;
        if new_den > ENTRY_LIMIT as i128 {
            return Err(SimplexError::Overflow);
        }
        let mut matrix: Vec<Vec<i64>> = Vec::with_capacity(num_rows);
        let mut i: usize = 0;
        while i < num_rows
            invariant
                i <= num_rows,
                matrix@.len() == i,
                forall|i2: int| 0 <= i2 < i ==> #[trigger] ints(matrix@[i2]@) == s.rows[i2],
                forall|i2: int, k: int| 0 <= i2 < i && 0 <= k < num_cols ==> fits(#[trigger] s.rows[i2][k]),
            decreases num_rows - i,
        {
            let mut row: Vec<i64> = Vec::with_capacity(num_cols);
            let mut k: usize = 0;
            while k < num_cols
                invariant
                    k <= num_cols,
                    row@.len() == k,
                    forall|k2: int| 0 <= k2 < k ==> #[trigger] row@[k2] as int == s.rows[i as int][k2],
                    forall|k2: int| 0 <= k2 < k ==> fits(#[trigger] s.rows[i as int][k2]),
                decreases num_cols - k,
            {
                let x = raw[i][k];
                let y: i128 = if exact {
                    match divide_exact(x, d) {
                        Some(q) => q,
                        None => x,
                    }
                } else {
                    x
                };
                assert(y == s.rows[i as int][k as int]);
                if y < -(ENTRY_LIMIT as i128) || y > ENTRY_LIMIT as i128 {
                    assert(!fits(s.rows[i as int][k as int]));
                    return Err(SimplexError::Overflow);
                }
                row.push(y as i64);
                k = k + 1;
            }
            assert(ints(row@) =~= s.rows[i as int]);
            matrix.push(row);
            i = i + 1;
        }
        self.matrix = matrix;
        self.denominator = new_den as i64;
        self.basic_vars.set(leaving_row, entering_var);
        proof {
            lemma_pivot_keeps_form(t, r, j);
            lemma_pivot_eliminates(t, r, j);
            assert(self@.rows =~= s.rows);
            assert(self@.basis =~= s.basis);
            assert(s.in_range()) by {
                assert forall|i2: int, k: int| 0 <= i2 < s.rows.len() && 0 <= k < s.rows[i2].len()
                    implies fits(#[trigger] s.rows[i2][k]) by {
                    assert(t.rows[i2].len() == t.rhs() + 1);
                }
            }
        }
        Ok(())
    }

    /// The basic solution of the tableau.
    #[verifier::loop_isolation(false)]
    fn extract_solution(&self) -> (sol: Solution)
        requires
            self@.wf(),
        ensures
            sol@ == self@.solution(),
    {
        let ghost t = self@;
        proof {
            self.lemma_view();
            lemma_basis_distinct(t);
        }
        let n = self.num_original_vars;
        let num_rows = self.basic_vars.len();
        assert(t.rows[0].len() == t.rhs() + 1);
        let rhs = self.matrix[0].len() - 1;
        let mut values: Vec<i64> = Vec::with_capacity(n);
        let mut v: usize = 0;
        while v < n
            invariant
                v <= n,
                values@.len() == v,
                forall|v2: int| 0 <= v2 < v ==> #[trigger] values@[v2] == 0,
            decreases n - v,
        {
            values.push(0);
            v = v + 1;
        }
        let mut i: usize = 0;
        while i < num_rows
            invariant
                i <= num_rows,
                values@.len() == n,
                forall|i2: int| 0 <= i2 < i && t.basis[i2] < n ==> #[trigger] values@[t.basis[i2]] as int == t.rows[i2][t.rhs()],
                forall|v2: int| 0 <= v2 < n && (forall|i2: int| 0 <= i2 < i ==> t.basis[i2] != v2) ==> #[trigger] values@[v2] == 0,
            decreases num_rows - i,
        {
            let basic_var = self.basic_vars[i];
            if basic_var < n {
                assert(t.rows[i as int].len() == t.rhs() + 1);
                assert(fits(t.rows[i as int][t.rhs()]));
                values.set(basic_var, self.matrix[i][rhs]);
                assert forall|i2: int| 0 <= i2 < i && t.basis[i2] < n implies #[trigger] values@[t.basis[i2]] as int
                    == t.rows[i2][t.rhs()] by {
                    assert(t.basis[i2] != t.basis[i as int]);
                }
            }
            assert forall|v2: int| 0 <= v2 < n && (forall|i2: int| 0 <= i2 < i + 1 ==> t.basis[i2] != v2)
                implies #[trigger] values@[v2] == 0 by {
                assert(t.basis[i as int] != v2);
            }
            i = i + 1;
        }
        assert(t.rows[num_rows as int].len() == t.rhs() + 1);
        let sol = Solution { values, objective: self.matrix[num_rows][rhs], denominator: self.denominator };
        assert forall|v2: int| 0 <= v2 < n implies #[trigger] sol@.values[v2] == t.basic_value(v2) by {
            if t.is_basic(v2) {
                let i2 = choose|i2: int| 0 <= i2 < t.m() && t.basis[i2] == v2;
                assert(values@[t.basis[i2]] as int == t.rows[i2][t.rhs()]);
            } else {
                assert(forall|i2: int| 0 <= i2 < num_rows ==> t.basis[i2] != v2);
            }
        }
        assert(sol@.values =~= t.solution().values);
        sol
    }

    /// Runs the simplex method: pivots by the entering and leaving rules
    /// until no objective coefficient is negative, then reports the basic
    /// solution.
    pub fn solve(&mut self) -> (r: Result<Solution, SimplexError>)
        requires
            old(self)@.wf(),
        ensures
            result_view(r) == old(self)@.run(MAX_PIVOTS as nat),
            final(self)@ == old(self)@.last(MAX_PIVOTS as nat),
            final(self)@.wf(),
            final(self)@.n == old(self)@.n,
            final(self)@.m() == old(self)@.m(),
            r is Ok ==> final(self)@.optimal() && result_view(r) == Ok::<SolutionView, SimplexError>(final(self)@.solution()),
            r == Err::<Solution, SimplexError>(SimplexError::Unbounded) ==> final(self)@.entering() is Some
                && final(self)@.leaving(final(self)@.entering()->Some_0) is None,
            r is Err ==> r == Err::<Solution, SimplexError>(SimplexError::Unbounded)
                || r == Err::<Solution, SimplexError>(SimplexError::Overflow)
                || r == Err::<Solution, SimplexError>(SimplexError::IterationLimit),
    {
        let mut pivots: u64 = 0;
        proof {
            lemma_last_wf(self@, MAX_PIVOTS as nat);
        }
        loop
            invariant
                self@.wf(),
                pivots <= MAX_PIVOTS,
                self@.run((MAX_PIVOTS - pivots) as nat) == old(self)@.run(MAX_PIVOTS as nat),
                self@.last((MAX_PIVOTS - pivots) as nat) == old(self)@.last(MAX_PIVOTS as nat),
                old(self)@.last(MAX_PIVOTS as nat).n == old(self)@.n,
                old(self)@.last(MAX_PIVOTS as nat).m() == old(self)@.m(),
            decreases MAX_PIVOTS - pivots,
        {
            let ghost t = self@;
            let entering_var = match self.find_entering_var() {
                Some(j) => j,
                None => {
                    let sol = self.extract_solution();
                    assert(t.run((MAX_PIVOTS - pivots) as nat) == Ok::<SolutionView, SimplexError>(t.solution()));
                    return Ok(sol);
                },
            };
            let leaving_row = match self.find_leaving_var(entering_var) {
                Some(r) => r,
                None => {
                    assert(t.run((MAX_PIVOTS - pivots) as nat) == Err::<SolutionView, SimplexError>(SimplexError::Unbounded));
                    return Err(SimplexError::Unbounded);
                },
            };
            if pivots == MAX_PIVOTS {
                return Err(SimplexError::IterationLimit);
            }
            match self.pivot(leaving_row, entering_var) {
                Ok(_) => {},
                Err(e) => {
                    return Err(e);
                },
            }
            proof {
                lemma_pivot_preserves_wf(t, leaving_row as int, entering_var as int);
            }
            pivots = pivots + 1;
        }
    }

    /// The column basic in each constraint row.
    pub fn basic_vars(&self) -> (r: &Vec<usize>)
        ensures
            r@.map_values(|v: usize| v as int) == self@.basis,
    {
        &self.basic_vars
    }
}

} // verus!
