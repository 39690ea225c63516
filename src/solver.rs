use crate::number::ParseError;
use crate::parse::{parse_problem, problem_rows, row_views, string_views};
use crate::rational::Rational;
use crate::simplex::{has_negative, reaches, stops_with, SolveError};
use crate::tableau::{one_value, zero_value, Tableau};
use vstd::prelude::*;

verus! {

/// Why a problem could not be solved.
#[derive(Clone, Copy, Debug, PartialEq, Eq, Structural)]
pub enum ProblemError {
    Parse(ParseError),
    Solve(SolveError),
    /// The slack columns would not fit the column count.
    TooLarge,
}

/// `r` is the simplex starting tableau built from the parsed tableau `t`:
/// `t` transposed, the objective row negated but for its right-hand side, an
/// identity block inserted before the right-hand-side column, and the
/// objective row's right-hand side set to zero.
pub open spec fn is_standard_form_of(r: Tableau, t: Tableau) -> bool {
    let m = t.n;
    let n = t.m;
    &&& r.m == m
    &&& r.n == n + m
    &&& forall|i: int, j: int|
        0 <= i < m && 0 <= j < n - 1 ==> #[trigger] r.cell(i, j) == if i == m - 1 {
            t.cell(j, i).spec_neg()
        } else {
            t.cell(j, i)
        }
    &&& forall|i: int, k: int|
        0 <= i < m && 0 <= k < m ==> #[trigger] r.cell(i, n - 1 + k) == if i == k {
            one_value()
        } else {
            zero_value()
        }
    &&& forall|i: int| 0 <= i < m - 1 ==> #[trigger] r.cell(i, n + m - 1) == t.cell(n - 1, i)
    &&& r.cell(m - 1, n + m - 1) == zero_value()
}

impl Tableau {
    /// The simplex starting tableau of a parsed problem.
    pub fn standard_form(&self) -> (r: Tableau)
        requires
            self.wf(),
            self.m >= 1,
            self.n >= 1,
            self.m + self.n <= usize::MAX,
        ensures
            r.wf(),
            is_standard_form_of(r, *self),
    {
        let mut r = self.transpose();
        let ghost u = r;
        r.negate();
        let ghost v = r;
        r.add_slack_variables();
        proof {
            let (m, n) = (self.n as int, self.m as int);
            assert forall|i: int, j: int| 0 <= i < m && 0 <= j < n - 1 implies #[trigger] r.cell(i, j)
                == if i == m - 1 {
                self.cell(j, i).spec_neg()
            } else {
                self.cell(j, i)
            } by {
                assert(r.cell(i, j) == v.cell(i, j));
                assert(u.cell(i, j) == self.cell(j, i));
            }
            assert forall|i: int| 0 <= i < m - 1 implies #[trigger] r.cell(i, n + m - 1) == self.cell(n - 1, i) by {
                assert(r.cell(i, r.rhs()) == v.cell(i, v.rhs()));
                assert(v.cell(i, n - 1) == u.cell(i, n - 1));
                assert(u.cell(i, n - 1) == self.cell(n - 1, i));
            }
        }
        r
    }
}

/// `s` is the starting tableau of the problem whose parsed rows are `rows`.
pub open spec fn is_start_of(s: Tableau, rows: Seq<Seq<Rational>>) -> bool {
    exists|p: Tableau|
        #[trigger] is_standard_form_of(s, p) && p.m == rows.len() && p.n == rows.last().len() && row_views(
            p.matrix@,
        ) == rows
}

/// Running the simplex loop from `s` with `max_pivots` pivots at most ends
/// in the error `e`.
pub open spec fn run_fails_with(s: Tableau, e: SolveError, max_pivots: usize) -> bool {
    exists|u: Tableau, k: nat|
        #[trigger] reaches(s, u, k) && k <= max_pivots && stops_with(u, e) && (e == SolveError::StepLimit
            ==> k == max_pivots)
}

/// Parses the lines, builds the starting tableau and runs at most
/// `max_pivots` pivots; the result is the final tableau, whose objective row
/// has no negative entry.
pub fn solve_lines(lines: &Vec<String>, max_pivots: usize) -> (r: Result<Tableau, ProblemError>)
    ensures
        match problem_rows(string_views(lines@)) {
            Err(e) => r == Err::<Tableau, ProblemError>(ProblemError::Parse(e)),
            Ok(rows) => {
                &&& r == Err::<Tableau, ProblemError>(ProblemError::TooLarge) <==> rows.len() + rows.last().len()
                    > usize::MAX
                &&& r matches Ok(t) ==> {
                    &&& t.wf()
                    &&& t.m >= 1
                    &&& t.n > t.m
                    &&& !has_negative(t)
                    &&& exists|s: Tableau|
                        #[trigger] is_start_of(s, rows) && exists|k: nat|
                            k <= max_pivots && #[trigger] reaches(s, t, k)
                }
                &&& r matches Err(ProblemError::Solve(e)) ==> exists|s: Tableau|
                    #[trigger] is_start_of(s, rows) && run_fails_with(s, e, max_pivots)
            },
        },
{
    let parsed = match parse_problem(lines) {
        Err(e) => {
            return Err(ProblemError::Parse(e));
        },
        Ok(t) => t,
    };
    if parsed.n > usize::MAX - parsed.m {
        return Err(ProblemError::TooLarge);
    }
    let mut t = parsed.standard_form();
    let ghost s = t;
    assert(is_start_of(s, problem_rows(string_views(lines@)).unwrap()));
    match t.solve(max_pivots) {
        Err(e) => {
            let ghost u = t;
            proof {
                let k = choose|k: nat| k <= max_pivots && #[trigger] reaches(s, u, k) && (e
                    == SolveError::StepLimit ==> k == max_pivots);
                assert(reaches(s, u, k));
            }
            assert(run_fails_with(s, e, max_pivots));
            Err(ProblemError::Solve(e))
        },
        Ok(k) => {
            assert(reaches(s, t, k as nat));
            Ok(t)
        },
    }
}

} // verus!
