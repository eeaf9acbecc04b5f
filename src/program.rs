//! A linear program in standard form, solved by a fresh tableau per call.
use vstd::prelude::*;
use crate::error::SimplexError;
use crate::model::{ints, int_rows, outcome};
use crate::tableau::{lengths_ok, result_view, Solution, Tableau};
use crate::feasibility::{
    feasible_solution, optimal_solution, no_maximum, lemma_solution_feasible, lemma_solution_optimal,
    lemma_unbounded_has_no_maximum,
};

verus! {

/// Maximise `c·x` subject to `a·x <= b` and `x >= 0`.
pub struct LinearProgram {
    /// Constraint coefficients, one row per constraint.
    a: Vec<Vec<i64>>,
    /// Right-hand sides.
    b: Vec<i64>,
    /// Objective coefficients.
    c: Vec<i64>,
}

/// The problem data as integers: `(A, b, c)`.
pub struct ProgramView {
    pub a: Seq<Seq<int>>,
    pub b: Seq<int>,
    pub c: Seq<int>,
}

impl View for LinearProgram {
    type V = ProgramView;

    closed spec fn view(&self) -> ProgramView {
        ProgramView { a: int_rows(self.a@), b: ints(self.b@), c: ints(self.c@) }
    }
}

impl LinearProgram {
    /// Whether the stored vectors have lengths that memory allows.
    pub closed spec fn wf(&self) -> bool {
        lengths_ok(self.a@)
    }

    /// Stores the problem as given; it is checked when solved.
    pub fn new(a: Vec<Vec<i64>>, b: Vec<i64>, c: Vec<i64>) -> (lp: Self)
        requires
            lengths_ok(a@),
        ensures
            lp.wf(),
            lp@ == (ProgramView { a: int_rows(a@), b: ints(b@), c: ints(c@) }),
    {
        LinearProgram { a, b, c }
    }

    /// Solves the problem with a fresh tableau: the first input error, or
    /// the outcome of the simplex method.
    pub fn solve(&self) -> (r: Result<Solution, SimplexError>)
        requires
            self.wf(),
        ensures
            result_view(r) == outcome(self@.a, self@.b, self@.c),
            r is Ok ==> feasible_solution(self@.a, self@.b, self@.c, r->Ok_0@),
            r is Ok ==> optimal_solution(self@.a, self@.b, self@.c, r->Ok_0@),
            r == Err::<Solution, SimplexError>(SimplexError::Unbounded) ==> no_maximum(self@.a, self@.b, self@.c),
    {
        let mut tableau = match Tableau::new(&self.a, &self.b, &self.c) {
            Ok(t) => t,
            Err(e) => {
                return Err(e);
            },
        };
        let r = tableau.solve();
        proof {
            if r is Ok {
                lemma_solution_feasible(self@.a, self@.b, self@.c);
                lemma_solution_optimal(self@.a, self@.b, self@.c);
            }
            if r == Err::<Solution, SimplexError>(SimplexError::Unbounded) {
                lemma_unbounded_has_no_maximum(self@.a, self@.b, self@.c);
            }
        }
        r
    }
}

/// Solving is deterministic: two programs with the same data give the same
/// result.
pub proof fn lemma_solve_deterministic(
    p1: LinearProgram,
    p2: LinearProgram,
    r1: Result<Solution, SimplexError>,
    r2: Result<Solution, SimplexError>,
)
    requires
        p1@ == p2@,
        result_view(r1) == outcome(p1@.a, p1@.b, p1@.c),
        result_view(r2) == outcome(p2@.a, p2@.b, p2@.c),
    ensures
        result_view(r1) == result_view(r2),
{
}

} // verus!
