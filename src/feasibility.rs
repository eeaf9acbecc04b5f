//! What the outcomes mean for the problem itself. A pivot keeps exactly the
//! points of the tableau, so the basic solution where the method stops is
//! feasible, the final objective row bounds every feasible point when it is
//! optimal, and the entering column of an unbounded stop gives feasible
//! points of any objective value.
use vstd::prelude::*;
use crate::error::SimplexError;
use crate::model::{
    TableauView, SolutionView, MAX_PIVOTS, initial, input_error, outcome, lemma_initial_wf, lemma_pivot_preserves_wf, lemma_basis_distinct,
    lemma_ratio_trans, lemma_pivot_keeps_form,
};

verus! {

/// `row[0..len] · u[0..len]`.
pub open spec fn dot(row: Seq<int>, u: Seq<int>, len: int) -> int
    decreases len,
{
    if len <= 0 {
        0
    } else {
        dot(row, u, len - 1) + row[len - 1] * u[len - 1]
    }
}

/// Row `i` of `t` holds at the point `u` over the denominator `e`, where `z`
/// is the objective value.
pub open spec fn row_holds(t: TableauView, i: int, u: Seq<int>, z: int, e: int) -> bool {
    dot(t.rows[i], u, t.rhs()) + (if i == t.m() { t.den * z } else { 0 }) == t.rows[i][t.rhs()] * e
}

pub open spec fn satisfies(t: TableauView, u: Seq<int>, z: int, e: int) -> bool {
    forall|i: int| 0 <= i <= t.m() ==> #[trigger] row_holds(t, i, u, z, e)
}

/// Every point of `t` is a point of `t0`.
pub open spec fn refines(t: TableauView, t0: TableauView) -> bool {
    forall|u: Seq<int>, z: int, e: int| #[trigger] satisfies(t, u, z, e) ==> satisfies(t0, u, z, e)
}

/// The basic solution over all non-constant columns, slacks included.
pub open spec fn basic_point(t: TableauView) -> Seq<int> {
    Seq::new(t.rhs() as nat, |k: int| t.basic_value(k))
}

/// `sol` is a feasible point of `a·x <= b`, `x >= 0`, and its objective is
/// `c·x`, all over its positive denominator.
pub open spec fn feasible_solution(a: Seq<Seq<int>>, b: Seq<int>, c: Seq<int>, sol: SolutionView) -> bool {
    let n = a[0].len() as int;
    &&& sol.denominator > 0
    &&& sol.values.len() == n
    &&& forall|v: int| 0 <= v < n ==> #[trigger] sol.values[v] >= 0
    &&& forall|i: int| 0 <= i < a.len() ==> #[trigger] dot(a[i], sol.values, n) <= b[i] * sol.denominator
    &&& sol.objective == dot(c, sol.values, n)
}

/// `x / e` is a feasible point of `a·x <= b`, `x >= 0`.
pub open spec fn feasible_point(a: Seq<Seq<int>>, b: Seq<int>, x: Seq<int>, e: int) -> bool {
    let n = a[0].len() as int;
    &&& e > 0
    &&& x.len() == n
    &&& forall|v: int| 0 <= v < n ==> #[trigger] x[v] >= 0
    &&& forall|i: int| 0 <= i < a.len() ==> #[trigger] dot(a[i], x, n) <= b[i] * e
}

/// No feasible point has a larger objective than `sol`.
pub open spec fn optimal_solution(a: Seq<Seq<int>>, b: Seq<int>, c: Seq<int>, sol: SolutionView) -> bool {
    forall|x: Seq<int>, e: int| #[trigger] feasible_point(a, b, x, e)
        ==> dot(c, x, a[0].len() as int) * sol.denominator <= sol.objective * e
}

proof fn lemma_dot_linear(w: Seq<int>, x: Seq<int>, y: Seq<int>, u: Seq<int>, a: int, b: int, len: int)
    requires
        0 <= len,
        forall|k: int| 0 <= k < len ==> #[trigger] w[k] == a * x[k] + b * y[k],
    ensures
        dot(w, u, len) == a * dot(x, u, len) + b * dot(y, u, len),
    decreases len,
{
    if len > 0 {
        lemma_dot_linear(w, x, y, u, a, b, len - 1);
        let k = len - 1;
        let (dw, dx, dy) = (dot(w, u, k), dot(x, u, k), dot(y, u, k));
        let (wk, xk, yk, uk) = (w[k], x[k], y[k], u[k]);
        assert(wk * uk == a * (xk * uk) + b * (yk * uk)) by (nonlinear_arith)
            requires wk == a * xk + b * yk;
        assert(a * (dx + xk * uk) == a * dx + a * (xk * uk)) by (nonlinear_arith);
        assert(b * (dy + yk * uk) == b * dy + b * (yk * uk)) by (nonlinear_arith);
    }
}

proof fn lemma_dot_zero_terms(x: Seq<int>, u: Seq<int>, lo: int, hi: int)
    requires
        0 <= lo <= hi,
        forall|k: int| lo <= k < hi ==> #[trigger] (x[k] * u[k]) == 0,
    ensures
        dot(x, u, hi) == dot(x, u, lo),
    decreases hi - lo,
{
    if hi > lo {
        lemma_dot_zero_terms(x, u, lo, hi - 1);
        assert(x[hi - 1] * u[hi - 1] == 0);
    }
}

proof fn lemma_dot_one_term(x: Seq<int>, u: Seq<int>, lo: int, hi: int, q: int)
    requires
        0 <= lo <= q < hi,
        forall|k: int| lo <= k < hi && k != q ==> #[trigger] (x[k] * u[k]) == 0,
    ensures
        dot(x, u, hi) == dot(x, u, lo) + x[q] * u[q],
{
    lemma_dot_zero_terms(x, u, lo, q);
    lemma_dot_zero_terms(x, u, q + 1, hi);
}

proof fn lemma_dot_congruent(x: Seq<int>, y: Seq<int>, u: Seq<int>, v: Seq<int>, len: int)
    requires
        forall|k: int| 0 <= k < len ==> #[trigger] x[k] == y[k],
        forall|k: int| 0 <= k < len ==> #[trigger] u[k] == v[k],
    ensures
        dot(x, u, len) == dot(y, v, len),
    decreases len,
{
    if len > 0 {
        lemma_dot_congruent(x, y, u, v, len - 1);
    }
}

/// A pivot on a positive entry loses no equation: every point of the pivoted
/// tableau is a point of the tableau before.
pub proof fn lemma_pivot_refines(t: TableauView, r: int, j: int)
    requires
        t.wf(),
        0 <= r < t.m(),
        0 <= j < t.rhs(),
        t.rows[r][j] > 0,
    ensures
        refines(t.pivot(r, j), t),
{
    let s = t.pivot(r, j);
    let d = t.den;
    let p = t.rows[r][j];
    let m = t.m() as int;
    let c = t.rhs();
    let exact = t.raw_exact(r, j);
    let g: int = if exact { d } else { 1 };
    assert(s.rhs() == c && s.m() == t.m());
    assert(g * s.den == p * d) by (nonlinear_arith)
        requires exact ==> g == d && s.den == p, !exact ==> g == 1 && s.den == p * d;
    // every elimination result is `g` times the stored entry
    assert forall|i: int, k: int| 0 <= i <= m && 0 <= k <= c implies #[trigger] t.raw(r, j, i, k) == g * s.rows[i][k] by {
        if exact {
            vstd::arithmetic::div_mod::lemma_fundamental_div_mod(t.raw(r, j, i, k), d);
        }
    }
    assert forall|u: Seq<int>, z: int, e: int| #[trigger] satisfies(s, u, z, e) implies satisfies(t, u, z, e) by {
        // row `r` first
        let raw_r = Seq::new((c + 1) as nat, |k: int| t.raw(r, j, r, k));
        lemma_dot_linear(raw_r, s.rows[r], s.rows[r], u, g, 0, c);
        lemma_dot_linear(raw_r, t.rows[r], t.rows[r], u, d, 0, c);
        assert(row_holds(s, r, u, z, e));
        let (dr, dsr) = (dot(t.rows[r], u, c), dot(s.rows[r], u, c));
        let (tr, sr) = (t.rows[r][c], s.rows[r][c]);
        assert(t.raw(r, j, r, c) == g * sr);
        assert(dr == tr * e) by (nonlinear_arith)
            requires d * dr == g * dsr, dsr == sr * e, d * tr == g * sr, d > 0;
        assert forall|i: int| 0 <= i <= m implies #[trigger] row_holds(t, i, u, z, e) by {
            if i != r {
                let f = t.rows[i][j];
                let raw_i = Seq::new((c + 1) as nat, |k: int| t.raw(r, j, i, k));
                lemma_dot_linear(raw_i, s.rows[i], s.rows[i], u, g, 0, c);
                assert forall|k: int| 0 <= k < c implies #[trigger] raw_i[k] == p * t.rows[i][k] + (-f) * t.rows[r][k] by {
                    assert(raw_i[k] == p * t.rows[i][k] - f * t.rows[r][k]);
                    assert((-f) * t.rows[r][k] == -(f * t.rows[r][k])) by (nonlinear_arith);
                }
                lemma_dot_linear(raw_i, t.rows[i], t.rows[r], u, p, -f, c);
                assert(row_holds(s, i, u, z, e));
                let (di, dsi) = (dot(t.rows[i], u, c), dot(s.rows[i], u, c));
                let (ti, si) = (t.rows[i][c], s.rows[i][c]);
                let zi: int = if i == m { d * z } else { 0 };
                let szi: int = if i == m { s.den * z } else { 0 };
                assert(g * szi == p * zi) by (nonlinear_arith)
                    requires i == m ==> zi == d * z && szi == s.den * z, i != m ==> zi == 0 && szi == 0, g * s.den == p * d;
                assert(t.raw(r, j, i, c) == g * si);
                assert(g * dsi + g * szi == g * si * e) by (nonlinear_arith)
                    requires dsi + szi == si * e;
                assert(g * si * e == p * ti * e - f * tr * e) by (nonlinear_arith)
                    requires p * ti - f * tr == g * si;
                assert(f * dr == f * tr * e) by (nonlinear_arith)
                    requires dr == tr * e;
                assert((-f) * dr == -(f * dr)) by (nonlinear_arith);
                assert(p * (di + zi) == p * (ti * e)) by (nonlinear_arith)
                    requires p * di - f * dr == g * dsi, g * dsi + g * szi == p * ti * e - f * tr * e,
                    f * dr == f * tr * e, g * szi == p * zi;
                assert(di + zi == ti * e) by (nonlinear_arith)
                    requires p * (di + zi) == p * (ti * e), p > 0;
            }
        }
    }
}

/// A pivot on a positive entry adds no equation: every point of the tableau
/// is a point of the pivoted one.
pub proof fn lemma_pivot_refined_by(t: TableauView, r: int, j: int)
    requires
        t.wf(),
        0 <= r < t.m(),
        0 <= j < t.rhs(),
        t.rows[r][j] > 0,
    ensures
        refines(t, t.pivot(r, j)),
{
    let s = t.pivot(r, j);
    let d = t.den;
    let p = t.rows[r][j];
    let m = t.m() as int;
    let c = t.rhs();
    let exact = t.raw_exact(r, j);
    let g: int = if exact { d } else { 1 };
    assert(s.rhs() == c && s.m() == t.m());
    assert(g * s.den == p * d) by (nonlinear_arith)
        requires exact ==> g == d && s.den == p, !exact ==> g == 1 && s.den == p * d;
    assert forall|i: int, k: int| 0 <= i <= m && 0 <= k <= c implies #[trigger] t.raw(r, j, i, k) == g * s.rows[i][k] by {
        if exact {
            vstd::arithmetic::div_mod::lemma_fundamental_div_mod(t.raw(r, j, i, k), d);
        }
    }
    assert forall|u: Seq<int>, z: int, e: int| #[trigger] satisfies(t, u, z, e) implies satisfies(s, u, z, e) by {
        let dr = dot(t.rows[r], u, c);
        let tr = t.rows[r][c];
        assert(row_holds(t, r, u, z, e));
        assert forall|i: int| 0 <= i <= m implies #[trigger] row_holds(s, i, u, z, e) by {
            let raw_i = Seq::new((c + 1) as nat, |k: int| t.raw(r, j, i, k));
            lemma_dot_linear(raw_i, s.rows[i], s.rows[i], u, g, 0, c);
            let (dsi, si) = (dot(s.rows[i], u, c), s.rows[i][c]);
            assert(t.raw(r, j, i, c) == g * si);
            if i == r {
                lemma_dot_linear(raw_i, t.rows[r], t.rows[r], u, d, 0, c);
                assert(dsi == si * e) by (nonlinear_arith)
                    requires g * dsi == d * dr, dr == tr * e, d * tr == g * si, g > 0;
            } else {
                let f = t.rows[i][j];
                assert forall|k: int| 0 <= k < c implies #[trigger] raw_i[k] == p * t.rows[i][k] + (-f) * t.rows[r][k] by {
                    assert(raw_i[k] == p * t.rows[i][k] - f * t.rows[r][k]);
                    assert((-f) * t.rows[r][k] == -(f * t.rows[r][k])) by (nonlinear_arith);
                }
                lemma_dot_linear(raw_i, t.rows[i], t.rows[r], u, p, -f, c);
                assert(row_holds(t, i, u, z, e));
                let (di, ti) = (dot(t.rows[i], u, c), t.rows[i][c]);
                let zi: int = if i == m { d * z } else { 0 };
                let szi: int = if i == m { s.den * z } else { 0 };
                assert(g * szi == p * zi) by (nonlinear_arith)
                    requires i == m ==> zi == d * z && szi == s.den * z, i != m ==> zi == 0 && szi == 0, g * s.den == p * d;
                assert((-f) * dr == -(f * dr)) by (nonlinear_arith);
                assert(p * (di + zi) == p * (ti * e)) by (nonlinear_arith)
                    requires di + zi == ti * e;
                assert(f * dr == f * (tr * e)) by (nonlinear_arith)
                    requires dr == tr * e;
                assert(g * si * e == p * ti * e - f * tr * e) by (nonlinear_arith)
                    requires p * ti - f * tr == g * si;
                assert(g * (dsi + szi) == g * dsi + g * szi) by (nonlinear_arith);
                assert(p * (di + zi) == p * di + p * zi) by (nonlinear_arith);
                assert(p * (ti * e) == p * ti * e) by (nonlinear_arith);
                assert(f * (tr * e) == f * tr * e) by (nonlinear_arith);
                assert(g * (si * e) == g * si * e) by (nonlinear_arith);
                assert(g * (dsi + szi) == g * (si * e));
                assert(dsi + szi == si * e) by (nonlinear_arith)
                    requires g * (dsi + szi) == g * (si * e), g > 0;
            }
        }
    }
}

/// A pivot on a positive entry keeps the problem: the tableau before and
/// after have the same points.
pub proof fn lemma_pivot_equivalent(t: TableauView, r: int, j: int)
    requires
        t.wf(),
        0 <= r < t.m(),
        0 <= j < t.rhs(),
        t.rows[r][j] > 0,
    ensures
        forall|u: Seq<int>, z: int, e: int| satisfies(t, u, z, e) <==> #[trigger] satisfies(t.pivot(r, j), u, z, e),
{
    lemma_pivot_refines(t, r, j);
    lemma_pivot_refined_by(t, r, j);
    assert forall|u: Seq<int>, z: int, e: int| satisfies(t, u, z, e) <==> #[trigger] satisfies(t.pivot(r, j), u, z, e) by {
        if satisfies(t, u, z, e) {
            assert(satisfies(t.pivot(r, j), u, z, e));
        }
        if satisfies(t.pivot(r, j), u, z, e) {
            assert(satisfies(t, u, z, e));
        }
    }
}

/// The basic solution satisfies its own tableau.
proof fn lemma_basic_point(t: TableauView)
    requires
        t.wf(),
    ensures
        satisfies(t, basic_point(t), t.obj()[t.rhs()], t.den),
{
    let u = basic_point(t);
    let m = t.m() as int;
    let c = t.rhs();
    lemma_basis_distinct(t);
    assert forall|i: int| 0 <= i < m implies #[trigger] u[t.basis[i]] == t.rows[i][c] by {
        let l = choose|l: int| 0 <= l < t.m() && t.basis[l] == t.basis[i];
        assert(t.is_basic(t.basis[i]));
        assert(l == i);
    }
    assert forall|i: int| 0 <= i <= m implies #[trigger] row_holds(t, i, u, t.obj()[c], t.den) by {
        assert forall|k: int| 0 <= k < c && (i == m || k != t.basis[i]) implies #[trigger] (t.rows[i][k] * u[k]) == 0 by {
            if t.is_basic(k) {
                let l = choose|l: int| 0 <= l < t.m() && t.basis[l] == k;
                assert(t.rows[i][t.basis[l]] == 0);
            }
        }
        if i < m {
            lemma_dot_one_term(t.rows[i], u, 0, c, t.basis[i]);
            assert(t.den * t.rows[i][c] == t.rows[i][c] * t.den) by (nonlinear_arith);
        } else {
            lemma_dot_zero_terms(t.rows[i], u, 0, c);
            assert(t.den * t.obj()[c] == t.obj()[c] * t.den) by (nonlinear_arith);
        }
    }
}

/// The run ends in a well-formed tableau that refines the one it started
/// from, and reports that tableau's basic solution.
proof fn lemma_run_final(t: TableauView, fuel: nat) -> (s: TableauView)
    requires
        t.wf(),
        t.run(fuel) is Ok,
    ensures
        s.wf(),
        s.n == t.n,
        s.m() == t.m(),
        t.run(fuel) == Ok::<SolutionView, SimplexError>(s.solution()),
        refines(s, t),
        refines(t, s),
        s.optimal(),
    decreases fuel,
{
    match t.entering() {
        None => {
            lemma_no_entering_optimal(t);
            t
        },
        Some(j) => {
            let r = t.leaving(j)->Some_0;
            let next = t.pivot(r, j);
            lemma_pivot_preserves_wf(t, r, j);
            lemma_pivot_refines(t, r, j);
            lemma_pivot_refined_by(t, r, j);
            let s = lemma_run_final(next, (fuel - 1) as nat);
            assert forall|u: Seq<int>, z: int, e: int| #[trigger] satisfies(s, u, z, e) implies satisfies(t, u, z, e) by {
                assert(satisfies(next, u, z, e));
            }
            assert forall|u: Seq<int>, z: int, e: int| #[trigger] satisfies(t, u, z, e) implies satisfies(s, u, z, e) by {
                assert(satisfies(next, u, z, e));
            }
            s
        },
    }
}

/// The first column holding the least objective coefficient among the first
/// `len` columns.
proof fn lemma_prefix_min(t: TableauView, len: int) -> (j: int)
    requires
        t.shaped(),
        0 < len <= t.rhs(),
    ensures
        0 <= j < len,
        forall|k: int| 0 <= k < len ==> t.obj()[j] <= #[trigger] t.obj()[k],
        forall|k: int| 0 <= k < j ==> t.obj()[j] < #[trigger] t.obj()[k],
    decreases len,
{
    if len == 1 {
        0
    } else {
        let j = lemma_prefix_min(t, len - 1);
        if t.obj()[len - 1] < t.obj()[j] {
            len - 1
        } else {
            j
        }
    }
}

/// Without an entering column no objective coefficient is negative.
proof fn lemma_no_entering_optimal(t: TableauView)
    requires
        t.wf(),
        t.entering() is None,
    ensures
        t.optimal(),
{
    assert forall|k: int| 0 <= k < t.rhs() implies #[trigger] t.obj()[k] >= 0 by {
        if t.obj()[k] < 0 {
            let j = lemma_prefix_min(t, t.rhs());
            assert(t.is_entering(j));
        }
    }
}

proof fn lemma_dot_nonneg(x: Seq<int>, u: Seq<int>, len: int)
    requires
        forall|k: int| 0 <= k < len ==> #[trigger] x[k] >= 0 && u[k] >= 0,
    ensures
        dot(x, u, len) >= 0,
    decreases len,
{
    if len > 0 {
        lemma_dot_nonneg(x, u, len - 1);
        let (xk, uk) = (x[len - 1], u[len - 1]);
        assert(xk * uk >= 0) by (nonlinear_arith)
            requires xk >= 0, uk >= 0;
    }
}

/// A solution reported for `(a, b, c)` is optimal: every point `x / e` with
/// `a·x <= b·e` and `x >= 0` has objective at most the reported one.
pub proof fn lemma_solution_optimal(a: Seq<Seq<int>>, b: Seq<int>, c: Seq<int>)
    requires
        outcome(a, b, c) is Ok,
    ensures
        optimal_solution(a, b, c, outcome(a, b, c)->Ok_0),
{
    assert forall|x: Seq<int>, e: int| #[trigger] feasible_point(a, b, x, e) implies dot(c, x, a[0].len() as int)
        * (outcome(a, b, c)->Ok_0).denominator <= (outcome(a, b, c)->Ok_0).objective * e by {
        lemma_solution_bound(a, b, c, x, e);
    }
}

proof fn lemma_solution_bound(a: Seq<Seq<int>>, b: Seq<int>, c: Seq<int>, x: Seq<int>, e: int)
    requires
        outcome(a, b, c) is Ok,
        feasible_point(a, b, x, e),
    ensures
        dot(c, x, a[0].len() as int) * (outcome(a, b, c)->Ok_0).denominator <= (outcome(a, b, c)->Ok_0).objective * e,
{
    let t0 = initial(a, b, c);
    lemma_initial_wf(a, b, c);
    let s = lemma_run_final(t0, MAX_PIVOTS as nat);
    let m = a.len() as int;
    let n = a[0].len() as int;
    assert forall|i: int| 0 <= i < m implies #[trigger] a[i].len() == n by {
        if a[i].len() != n {
            assert(0 <= i < a.len() && a[i].len() != a[0].len());
        }
    }
    let u = Seq::new((n + m) as nat, |k: int| if k < n { x[k] } else { b[k - n] * e - dot(a[k - n], x, n) });
    let z = dot(c, x, n);
    assert forall|i: int| 0 <= i <= m implies #[trigger] row_holds(t0, i, u, z, e) by {
        lemma_dot_congruent(t0.rows[i], t0.rows[i], u, x, n);
        if i < m {
            assert forall|k: int| n <= k < n + m && k != n + i implies #[trigger] (t0.rows[i][k] * u[k]) == 0 by {}
            lemma_dot_one_term(t0.rows[i], u, n, n + m, n + i);
            lemma_dot_congruent(t0.rows[i], a[i], x, x, n);
            assert(t0.rows[i][n + i] == 1);
            assert(u[n + i] == b[i] * e - dot(a[i], x, n));
            assert(t0.rows[i][n + m] == b[i]);
            assert(dot(t0.rows[i], u, n + m) == b[i] * e);
            assert(t0.rhs() == n + m);
            assert(t0.m() == m);
            assert(row_holds(t0, i, u, z, e));
        } else {
            assert forall|k: int| n <= k < n + m implies #[trigger] (t0.rows[m][k] * u[k]) == 0 by {
                assert(t0.rows[m][k] == 0);
            }
            lemma_dot_zero_terms(t0.rows[m], u, n, n + m);
            assert forall|k: int| 0 <= k < n implies #[trigger] t0.rows[m][k] == -1 * c[k] + 0 * c[k] by {}
            lemma_dot_linear(t0.rows[m], c, c, x, -1, 0, n);
            assert(dot(t0.rows[m], u, n + m) == -z);
            assert(t0.rows[m][n + m] == 0);
            assert(t0.den == 1);
            assert(t0.rhs() == n + m);
            assert(t0.m() == m);
            assert(row_holds(t0, i, u, z, e));
        }
    }
    assert(satisfies(t0, u, z, e));
    assert(satisfies(s, u, z, e));
    assert(row_holds(s, m, u, z, e));
    assert forall|k: int| 0 <= k < s.rhs() implies #[trigger] s.obj()[k] >= 0 && u[k] >= 0 by {}
    lemma_dot_nonneg(s.obj(), u, s.rhs());
    assert(outcome(a, b, c) == Ok::<SolutionView, SimplexError>(s.solution()));
    let (dn, ob) = (s.den, s.obj()[s.rhs()]);
    assert(z * dn == dn * z) by (nonlinear_arith);
}

/// A solution reported for `(a, b, c)` is feasible: `a·x <= b` and `x >= 0`
/// hold exactly, and the objective value is `c·x`.
pub proof fn lemma_solution_feasible(a: Seq<Seq<int>>, b: Seq<int>, c: Seq<int>)
    requires
        outcome(a, b, c) is Ok,
    ensures
        feasible_solution(a, b, c, outcome(a, b, c)->Ok_0),
{
    let t0 = initial(a, b, c);
    lemma_initial_wf(a, b, c);
    let s = lemma_run_final(t0, MAX_PIVOTS as nat);
    let sol = s.solution();
    let u = basic_point(s);
    let z = s.obj()[s.rhs()];
    let e = s.den;
    let m = a.len() as int;
    let n = a[0].len() as int;
    lemma_basic_point(s);
    assert(satisfies(t0, u, z, e));
    assert forall|i: int| 0 <= i < m implies #[trigger] a[i].len() == n by {
        if a[i].len() != n {
            assert(0 <= i < a.len() && a[i].len() != a[0].len());
        }
    }
    assert(forall|k: int| 0 <= k < n ==> #[trigger] u[k] == sol.values[k]);
    assert forall|k: int| 0 <= k < s.rhs() implies #[trigger] u[k] >= 0 by {
        if s.is_basic(k) {
            let l = choose|l: int| 0 <= l < s.m() && s.basis[l] == k;
            assert(s.rows[l][s.rhs()] >= 0);
        }
    }
    assert forall|i: int| 0 <= i < m implies #[trigger] dot(a[i], sol.values, n) <= b[i] * e by {
        assert(row_holds(t0, i, u, z, e));
        assert forall|k: int| n <= k < n + m && k != n + i implies #[trigger] (t0.rows[i][k] * u[k]) == 0 by {}
        lemma_dot_one_term(t0.rows[i], u, n, n + m, n + i);
        lemma_dot_congruent(t0.rows[i], a[i], u, sol.values, n);
    }
    assert(row_holds(t0, m, u, z, e));
    assert forall|k: int| n <= k < n + m implies #[trigger] (t0.rows[m][k] * u[k]) == 0 by {
        assert(t0.rows[m][k] == 0);
    }
    lemma_dot_zero_terms(t0.rows[m], u, n, n + m);
    lemma_dot_congruent(t0.rows[m], t0.rows[m], u, sol.values, n);
    assert forall|k: int| 0 <= k < n implies #[trigger] t0.rows[m][k] == -1 * c[k] + 0 * c[k] by {}
    lemma_dot_linear(t0.rows[m], c, c, sol.values, -1, 0, n);
    assert(outcome(a, b, c) == Ok::<SolutionView, SimplexError>(sol));
    assert(sol.objective == dot(c, sol.values, n)) by {
        assert(dot(t0.rows[m], u, t0.rhs()) + t0.den * z == t0.rows[m][t0.rhs()] * e);
    }
    assert(sol.values.len() == n);
    assert(forall|v: int| 0 <= v < n ==> #[trigger] sol.values[v] >= 0);
}

} // verus!

verus! {

/// Among the first `len` constraint rows with a positive entry in column
/// `j` (one exists), the first with the least ratio.
proof fn lemma_ratio_min(t: TableauView, j: int, len: int, w: int) -> (r: int)
    requires
        t.wf(),
        0 <= j < t.rhs(),
        0 <= w < len <= t.m(),
        t.rows[w][j] > 0,
    ensures
        0 <= r < len,
        t.rows[r][j] > 0,
        forall|i: int| 0 <= i < len && #[trigger] t.rows[i][j] > 0 ==> t.ratio_le(r, i, j),
        forall|i: int| 0 <= i < r && #[trigger] t.rows[i][j] > 0 ==> t.ratio_lt(r, i, j),
    decreases len,
{
    let l = len - 1;
    if w == l && !(exists|i: int| 0 <= i < l && t.rows[i][j] > 0) {
        l
    } else {
        let w2 = if w < l { w } else { choose|i: int| 0 <= i < l && t.rows[i][j] > 0 };
        let r = lemma_ratio_min(t, j, l, w2);
        let c = t.rhs();
        if t.rows[l][j] > 0 && t.ratio_lt(l, r, j) {
            assert forall|i: int| 0 <= i < l && #[trigger] t.rows[i][j] > 0 implies t.ratio_lt(l, i, j) by {
                lemma_ratio_trans(t.rows[l][c], t.rows[l][j], t.rows[r][c], t.rows[r][j], t.rows[i][c], t.rows[i][j]);
            }
            l
        } else {
            r
        }
    }
}

/// Without a leaving row the entering column has no positive entry.
proof fn lemma_no_leaving(t: TableauView, j: int)
    requires
        t.wf(),
        0 <= j < t.rhs(),
        t.leaving(j) is None,
    ensures
        forall|i: int| 0 <= i < t.m() ==> #[trigger] t.rows[i][j] <= 0,
{
    assert forall|i: int| 0 <= i < t.m() implies #[trigger] t.rows[i][j] <= 0 by {
        if t.rows[i][j] > 0 {
            let r = lemma_ratio_min(t, j, t.m() as int, i);
            assert(t.is_leaving(j, r));
        }
    }
}

/// The run that reports unboundedness stops at a tableau whose entering
/// column has no positive entry, and that has the same points.
proof fn lemma_run_unbounded(t: TableauView, fuel: nat) -> (s: TableauView)
    requires
        t.wf(),
        t.run(fuel) == Err::<SolutionView, SimplexError>(SimplexError::Unbounded),
    ensures
        s.wf(),
        s.n == t.n,
        s.m() == t.m(),
        refines(s, t),
        s.entering() is Some,
        forall|i: int| 0 <= i < s.m() ==> #[trigger] s.rows[i][s.entering()->Some_0] <= 0,
    decreases fuel,
{
    let j = t.entering()->Some_0;
    if t.leaving(j) is None {
        lemma_no_leaving(t, j);
        t
    } else {
        let r = t.leaving(j)->Some_0;
        let next = t.pivot(r, j);
        lemma_pivot_preserves_wf(t, r, j);
        lemma_pivot_keeps_form(t, r, j);
        lemma_pivot_refines(t, r, j);
        let s = lemma_run_unbounded(next, (fuel - 1) as nat);
        assert forall|u: Seq<int>, z: int, e: int| #[trigger] satisfies(s, u, z, e) implies satisfies(t, u, z, e) by {
            assert(satisfies(next, u, z, e));
        }
        s
    }
}

proof fn lemma_dot_two_terms(x: Seq<int>, u: Seq<int>, len: int, q1: int, q2: int)
    requires
        0 <= q1 < q2 < len,
        forall|k: int| 0 <= k < len && k != q1 && k != q2 ==> #[trigger] (x[k] * u[k]) == 0,
    ensures
        dot(x, u, len) == x[q1] * u[q1] + x[q2] * u[q2],
{
    lemma_dot_zero_terms(x, u, 0, q1);
    lemma_dot_one_term(x, u, q1 + 1, len, q2);
}

} // verus!

verus! {

/// Some feasible point `x / e` has an objective above `k`.
pub open spec fn exceeds(a: Seq<Seq<int>>, b: Seq<int>, c: Seq<int>, k: int) -> bool {
    exists|x: Seq<int>, e: int| #[trigger] feasible_point(a, b, x, e) && dot(c, x, a[0].len() as int) > k * e
}

/// The objective has no upper bound over the feasible points.
pub open spec fn no_maximum(a: Seq<Seq<int>>, b: Seq<int>, c: Seq<int>) -> bool {
    forall|k: int| #[trigger] exceeds(a, b, c, k)
}

/// Unboundedness is real: when `(a, b, c)` is reported unbounded, every
/// bound is exceeded by the objective of some feasible point.
pub proof fn lemma_unbounded_has_no_maximum(a: Seq<Seq<int>>, b: Seq<int>, c: Seq<int>)
    requires
        outcome(a, b, c) == Err::<SolutionView, SimplexError>(SimplexError::Unbounded),
    ensures
        no_maximum(a, b, c),
{
    assert forall|k: int| #[trigger] exceeds(a, b, c, k) by {
        lemma_unbounded_exceeds(a, b, c, k);
    }
}

proof fn lemma_unbounded_exceeds(a: Seq<Seq<int>>, b: Seq<int>, c: Seq<int>, k: int)
    requires
        outcome(a, b, c) == Err::<SolutionView, SimplexError>(SimplexError::Unbounded),
    ensures
        exceeds(a, b, c, k),
{
    assert(input_error(a, b, c) is None);
    let t0 = initial(a, b, c);
    lemma_initial_wf(a, b, c);
    let s = lemma_run_unbounded(t0, MAX_PIVOTS as nat);
    lemma_basis_distinct(s);
    let m = a.len() as int;
    let n = a[0].len() as int;
    let j = s.entering()->Some_0;
    assert(s.is_entering(j));
    let cc = s.rhs();
    let d = s.den;
    let om = s.obj()[cc];
    let oj = s.obj()[j];
    let big = k * d * d - om * d + 1;
    let l: int = if big > 0 { big } else { 0 };
    let u = Seq::new(cc as nat, |q: int|
        if q == j {
            d * l
        } else if s.is_basic(q) {
            s.rows[choose|i: int| 0 <= i < s.m() && s.basis[i] == q][cc] * d
                - s.rows[choose|i: int| 0 <= i < s.m() && s.basis[i] == q][j] * l
        } else {
            0
        });
    let z = om * d - oj * l;
    let e = d * d;
    assert forall|i: int| 0 <= i < m implies #[trigger] u[s.basis[i]] == s.rows[i][cc] * d - s.rows[i][j] * l by {
        assert(s.is_basic(s.basis[i]));
        assert(s.obj()[s.basis[i]] == 0);
        let i2 = choose|i2: int| 0 <= i2 < s.m() && s.basis[i2] == s.basis[i];
        assert(i2 == i);
    }
    assert forall|q: int| 0 <= q < cc implies #[trigger] u[q] >= 0 by {
        if q == j {
            assert(d * l >= 0) by (nonlinear_arith) requires d > 0, l >= 0;
        } else if s.is_basic(q) {
            let i = choose|i: int| 0 <= i < s.m() && s.basis[i] == q;
            let (ri, rj) = (s.rows[i][cc], s.rows[i][j]);
            assert(ri >= 0 && rj <= 0);
            assert(ri * d - rj * l >= 0) by (nonlinear_arith) requires ri >= 0, rj <= 0, d > 0, l >= 0;
        }
    }
    assert forall|i: int| 0 <= i <= m implies #[trigger] row_holds(s, i, u, z, e) by {
        assert forall|q: int| 0 <= q < cc && q != j && (i == m || q != s.basis[i])
            implies #[trigger] (s.rows[i][q] * u[q]) == 0 by {
            if s.is_basic(q) {
                let l2 = choose|l2: int| 0 <= l2 < s.m() && s.basis[l2] == q;
                assert(s.rows[i][s.basis[l2]] == 0);
            }
        }
        if i < m {
            let bi = s.basis[i];
            assert(bi != j) by {
                assert(s.obj()[bi] == 0);
            }
            if bi < j {
                lemma_dot_two_terms(s.rows[i], u, cc, bi, j);
            } else {
                lemma_dot_two_terms(s.rows[i], u, cc, j, bi);
            }
            let (ri, rj) = (s.rows[i][cc], s.rows[i][j]);
            assert(d * (ri * d - rj * l) + rj * (d * l) == ri * (d * d)) by (nonlinear_arith);
        } else {
            lemma_dot_one_term(s.rows[i], u, 0, cc, j);
            assert(oj * (d * l) + d * (om * d - oj * l) == om * (d * d)) by (nonlinear_arith);
        }
    }
    assert(satisfies(s, u, z, e));
    assert(satisfies(t0, u, z, e));
    let x = Seq::new(n as nat, |q: int| u[q]);
    assert forall|i: int| 0 <= i < m implies #[trigger] a[i].len() == n by {
        if a[i].len() != n {
            assert(0 <= i < a.len() && a[i].len() != a[0].len());
        }
    }
    assert forall|i: int| 0 <= i < m implies #[trigger] dot(a[i], x, n) <= b[i] * e by {
        assert(row_holds(t0, i, u, z, e));
        assert forall|q: int| n <= q < n + m && q != n + i implies #[trigger] (t0.rows[i][q] * u[q]) == 0 by {}
        lemma_dot_one_term(t0.rows[i], u, n, n + m, n + i);
        lemma_dot_congruent(t0.rows[i], a[i], u, x, n);
        assert(t0.rows[i][n + i] == 1);
        assert(u[n + i] >= 0);
        assert(t0.rows[i][n + m] == b[i]);
        assert(t0.rhs() == n + m && t0.m() == m);
    }
    assert(row_holds(t0, m, u, z, e));
    assert forall|q: int| n <= q < n + m implies #[trigger] (t0.rows[m][q] * u[q]) == 0 by {
        assert(t0.rows[m][q] == 0);
    }
    lemma_dot_zero_terms(t0.rows[m], u, n, n + m);
    lemma_dot_congruent(t0.rows[m], t0.rows[m], u, x, n);
    assert forall|q: int| 0 <= q < n implies #[trigger] t0.rows[m][q] == -1 * c[q] + 0 * c[q] by {}
    lemma_dot_linear(t0.rows[m], c, c, x, -1, 0, n);
    assert(t0.rhs() == n + m && t0.m() == m && t0.den == 1 && t0.rows[m][n + m] == 0);
    assert(dot(c, x, n) == z);
    assert(z > k * e) by (nonlinear_arith)
        requires z == om * d - oj * l, oj < 0, l >= 0, big == k * d * d - om * d + 1,
        big > 0 ==> l == big, big <= 0 ==> l == 0, e == d * d;
    assert(e > 0) by (nonlinear_arith) requires e == d * d, d > 0;
    assert forall|v: int| 0 <= v < n implies #[trigger] x[v] >= 0 by {
        assert(u[v] >= 0);
    }
    assert(feasible_point(a, b, x, e));
}

} // verus!
