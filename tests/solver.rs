use simplex::{
    parse_line, parse_number, parse_problem, remove_unwanted_chars, solve_lines, ParseError,
    ProblemError, Rational, SolveError, Tableau,
};

fn q(num: i64, den: i64) -> Rational {
    Rational { num, den }
}

fn whole(n: i64) -> Rational {
    Rational::from_int(n)
}

fn row(v: &[i64]) -> Vec<Rational> {
    v.iter().map(|&x| whole(x)).collect()
}

fn grid(rows: &[&[i64]]) -> Tableau {
    let matrix: Vec<Vec<Rational>> = rows.iter().map(|r| row(r)).collect();
    Tableau { m: matrix.len(), n: matrix[0].len(), matrix }
}

fn lines(v: &[&str]) -> Vec<String> {
    v.iter().map(|s| s.to_string()).collect()
}

fn chars(s: &str) -> Vec<char> {
    s.chars().collect()
}

#[test]
fn scenario_parses_into_relocated_rows() {
    let t = parse_problem(&lines(&["min: 2*x + 3*y;", "1*x + 1*y >= 4;"])).unwrap();
    assert_eq!(t.m, 2);
    assert_eq!(t.n, 3);
    assert_eq!(t.matrix, vec![row(&[1, 1, 4]), row(&[2, 3, 1])]);
}

#[test]
fn scenario_solves_to_eight() {
    let t = solve_lines(&lines(&["min: 2*x + 3*y;", "1*x + 1*y >= 4;"]), 100).unwrap();
    assert_eq!(t.objective_value(), whole(8));
    // x = 4, y = 0: meets x + y >= 4 with 2x + 3y = 8.
    assert_eq!(t.variable_values(), vec![whole(4), whole(0)]);
    assert!(!t.check_for_negatives());
}

#[test]
fn comment_lines_are_skipped() {
    let src = lines(&["// objective", "min: 1*x;", "// constraint", "1*x >= 2;"]);
    let t = parse_problem(&src).unwrap();
    assert_eq!(t.matrix, vec![row(&[1, 2]), row(&[1, 1])]);
    let solved = solve_lines(&src, 10).unwrap();
    assert_eq!(solved.objective_value(), whole(2));
}

#[test]
fn parsed_rows_are_rectangular() {
    let t = parse_problem(&lines(&["min: 1*a + 2*b + 3*c;", "1*a + 0*b + 1*c >= 5;", "2 + 1 + 1 >= 3;"])).unwrap();
    assert_eq!(t.matrix.len(), t.m);
    for r in &t.matrix {
        assert_eq!(r.len(), t.n);
    }
    assert_eq!(t.n, 4);
}

#[test]
fn transpose_twice_gives_back_the_tableau() {
    let t = grid(&[&[1, 2, 3], &[4, 5, 6]]);
    let u = t.transpose();
    assert_eq!(u.m, 3);
    assert_eq!(u.n, 2);
    assert_eq!(u.matrix, vec![row(&[1, 4]), row(&[2, 5]), row(&[3, 6])]);
    let v = u.transpose();
    assert_eq!(v.m, t.m);
    assert_eq!(v.n, t.n);
    assert_eq!(v.matrix, t.matrix);
}

#[test]
fn negate_flips_objective_row_but_not_rhs() {
    let mut t = grid(&[&[1, 2], &[3, -4], &[5, 6]]);
    t.negate();
    assert_eq!(t.matrix, vec![row(&[1, 2]), row(&[3, -4]), row(&[-5, 6])]);
}

#[test]
fn slack_block_is_identity_with_zero_corner() {
    let mut t = grid(&[&[1, 2], &[1, 3], &[-4, 1]]);
    t.add_slack_variables();
    assert_eq!(t.n, 5);
    assert_eq!(
        t.matrix,
        vec![row(&[1, 1, 0, 0, 2]), row(&[1, 0, 1, 0, 3]), row(&[-4, 0, 0, 1, 0])]
    );
}

#[test]
fn standard_form_of_scenario() {
    let t = parse_problem(&lines(&["min: 2*x + 3*y;", "1*x + 1*y >= 4;"])).unwrap();
    let s = t.standard_form();
    assert_eq!(
        s.matrix,
        vec![row(&[1, 1, 0, 0, 2]), row(&[1, 0, 1, 0, 3]), row(&[-4, 0, 0, 1, 0])]
    );
}

#[test]
fn pivot_normalizes_pivot_column() {
    let mut t = grid(&[&[2, 4], &[3, 5]]);
    assert_eq!(t.pivot_on(0, 0), Ok(()));
    assert_eq!(t.matrix, vec![row(&[1, 2]), row(&[0, -1])]);
    let mut u = grid(&[&[1, 3, 2], &[4, 6, 8], &[2, -2, 5]]);
    assert_eq!(u.pivot_on(1, 1), Ok(()));
    assert_eq!(u.get(1, 1), whole(1));
    assert_eq!(u.get(0, 1), whole(0));
    assert_eq!(u.get(2, 1), whole(0));
    assert_eq!(u.get(1, 0), q(2, 3));
    assert_eq!(u.get(0, 2), whole(-2));
    assert_eq!(u.get(2, 2), q(23, 3));
}

#[test]
fn pivot_overflow_leaves_tableau_unchanged() {
    let mut t = grid(&[&[3, 9_000_000_000_000_000_000], &[-5, 0]]);
    let before = t.matrix.clone();
    assert_eq!(t.step(), Err(SolveError::Overflow));
    assert_eq!(t.matrix, before);
}

#[test]
fn pivot_column_takes_first_most_negative() {
    assert_eq!(grid(&[&[1, 1, 1], &[-3, -3, 0]]).find_pivot_col(), 0);
    assert_eq!(grid(&[&[1, 1, 1], &[-1, -3, -3]]).find_pivot_col(), 1);
    assert_eq!(grid(&[&[1, 1, 1], &[2, 0, 5]]).find_pivot_col(), 0);
}

#[test]
fn ratio_tie_picks_first_row() {
    let t = grid(&[&[1, 2], &[2, 4], &[-1, 0]]);
    assert_eq!(t.find_pivot_row(0), Ok(Some(0)));
}

#[test]
fn ratio_test_prefers_smaller_positive_ratio() {
    let t = grid(&[&[1, 6], &[2, 4], &[-1, 0]]);
    assert_eq!(t.find_pivot_row(0), Ok(Some(1)));
}

#[test]
fn ratio_test_replaces_negative_first_choice() {
    let t = grid(&[&[1, -2], &[1, 3], &[-1, 0]]);
    assert_eq!(t.find_pivot_row(0), Ok(Some(1)));
}

#[test]
fn ratio_test_replaces_zero_ratio_by_positive() {
    let t = grid(&[&[1, 0], &[1, 1], &[-1, 0]]);
    assert_eq!(t.find_pivot_row(0), Ok(Some(1)));
    let only_zero = grid(&[&[1, 0], &[1, -1], &[-1, 0]]);
    assert_eq!(only_zero.find_pivot_row(0), Ok(Some(0)));
}

#[test]
fn ratio_test_skips_zero_entries() {
    let t = grid(&[&[0, 5], &[2, 4], &[-1, 0]]);
    assert_eq!(t.find_pivot_row(0), Ok(Some(1)));
    let none = grid(&[&[0, 5], &[0, 4], &[-1, 0]]);
    assert_eq!(none.find_pivot_row(0), Ok(None));
}

#[test]
fn step_reports_unbounded() {
    let mut t = grid(&[&[0, 1], &[-1, 0]]);
    assert_eq!(t.step(), Err(SolveError::Unbounded));
}

#[test]
fn step_on_optimal_changes_nothing() {
    let mut t = grid(&[&[1, 1], &[2, 3]]);
    assert_eq!(t.step(), Ok(false));
    assert_eq!(t.matrix, vec![row(&[1, 1]), row(&[2, 3])]);
}

#[test]
fn solve_stops_at_step_limit() {
    let mut t = grid(&[&[1, 1, 0, 0, 2], &[1, 0, 1, 0, 3], &[-4, 0, 0, 1, 0]]);
    assert_eq!(t.solve(0), Err(SolveError::StepLimit));
    assert_eq!(t.solve(5), Ok(1));
    assert_eq!(t.objective_value(), whole(8));
}

#[test]
fn check_for_negatives_includes_rhs() {
    assert!(grid(&[&[1, 1], &[0, -1]]).check_for_negatives());
    assert!(!grid(&[&[1, -1], &[0, 1]]).check_for_negatives());
}

#[test]
fn unwanted_chars_are_removed() {
    let mut text = chars("min: 2*x + 3*y;");
    remove_unwanted_chars(&mut text);
    assert_eq!(text, chars(" 2*x + 3*y"));
}

#[test]
fn numbers_parse_exactly() {
    assert_eq!(parse_number(&chars("-2.5")), Ok(q(-5, 2)));
    assert_eq!(parse_number(&chars("+.5")), Ok(q(1, 2)));
    assert_eq!(parse_number(&chars("3.")), Ok(whole(3)));
    assert_eq!(parse_number(&chars("0.75")), Ok(q(3, 4)));
    assert_eq!(parse_number(&chars("-0")), Ok(whole(0)));
    assert_eq!(parse_number(&chars("1e5")), Ok(whole(100_000)));
    assert_eq!(parse_number(&chars(".")), Err(ParseError::BadNumber));
    assert_eq!(parse_number(&chars("1.2.3")), Err(ParseError::BadNumber));
    assert_eq!(parse_number(&chars("")), Err(ParseError::BadNumber));
    assert_eq!(parse_number(&chars("0.12345678901234567890")), Err(ParseError::OutOfRange));
}

#[test]
fn line_errors_and_comments() {
    assert_eq!(parse_line("x"), Err(ParseError::ShortLine));
    assert_eq!(parse_line(""), Err(ParseError::ShortLine));
    assert_eq!(parse_line("// note"), Ok(None));
    assert_eq!(parse_line("min: 2*x + abc;"), Err(ParseError::BadNumber));
    assert_eq!(parse_line("1.5*x + 2*y >= 3;"), Ok(Some(vec![q(3, 2), whole(2), whole(3)])));
}

#[test]
fn problem_errors() {
    assert_eq!(parse_problem(&lines(&["// only a comment"])).err(), Some(ParseError::NoRows));
    assert_eq!(
        parse_problem(&lines(&["2*x + 3*y", "1*x + 1*y + 1*z >= 4"])).err(),
        Some(ParseError::RaggedRows)
    );
    assert_eq!(parse_problem(&lines(&["min: 2*x;", "x"])).err(), Some(ParseError::ShortLine));
    assert_eq!(
        solve_lines(&lines(&["min: 2*x;", "1*x >= q;"]), 10).err(),
        Some(ProblemError::Parse(ParseError::BadNumber))
    );
}

#[test]
fn rational_arithmetic_is_exact() {
    assert_eq!(q(1, 2).add(q(1, 3)), Some(q(5, 6)));
    assert_eq!(q(1, 2).sub(q(1, 2)), Some(whole(0)));
    assert_eq!(q(2, 3).mul(q(3, 4)), Some(q(1, 2)));
    assert_eq!(q(1, 2).div(q(-1, 4)), Some(whole(-2)));
    assert!(q(1, 3).lt(q(1, 2)));
    assert_eq!(whole(4_000_000_000).mul(whole(4_000_000_000)), None);
}

#[test]
fn spaces_around_terms_are_ignored() {
    assert_eq!(parse_line(" 3 *x +  4 >= 5"), Ok(Some(vec![whole(3), whole(4), whole(5)])));
    assert_eq!(parse_line("min:2*x + 3*y;"), Ok(Some(vec![whole(2), whole(3)])));
}

#[test]
fn numbers_with_exponents() {
    assert_eq!(parse_number(&chars("2.5e-3")), Ok(q(1, 400)));
    assert_eq!(parse_number(&chars("1E2")), Ok(whole(100)));
    assert_eq!(parse_number(&chars("-1.5e+1")), Ok(whole(-15)));
    assert_eq!(parse_number(&chars("12e-1")), Ok(q(6, 5)));
    assert_eq!(parse_number(&chars("1e")), Err(ParseError::BadNumber));
    assert_eq!(parse_number(&chars("1e+")), Err(ParseError::BadNumber));
    assert_eq!(parse_number(&chars("e5")), Err(ParseError::BadNumber));
    assert_eq!(parse_number(&chars("1e2.5")), Err(ParseError::BadNumber));
    assert_eq!(parse_number(&chars("1e40")), Err(ParseError::OutOfRange));
    assert_eq!(parse_number(&chars("3e-40")), Err(ParseError::OutOfRange));
    assert_eq!(parse_number(&chars("1e99999")), Err(ParseError::OutOfRange));
    assert_eq!(parse_line("2e1*x + 1 >= 3"), Ok(Some(vec![whole(20), whole(1), whole(3)])));
}
