use crate::number::{number_value, parse_number, ParseError};
use crate::rational::Rational;
use crate::tableau::{one_value, Tableau};
use crate::text::{
    before_star, chars_of, cut_at_star, remove_unwanted_chars, replace_ge, replace_ge_with_plus,
    split_on_plus, split_terms, strip, trim_spaces, trim_spaces_of, views,
};
use vstd::prelude::*;

verus! {

/// The numbers of the non-empty terms, each cut at its first `*` and
/// stripped of surrounding spaces; the first
/// term that is not a number decides the error.
pub open spec fn term_values(ts: Seq<Seq<char>>) -> Result<Seq<Rational>, ParseError>
    decreases ts.len(),
{
    if ts.len() == 0 {
        Ok(Seq::empty())
    } else {
        match term_values(ts.drop_last()) {
            Err(e) => Err(e),
            Ok(vs) => if ts.last().len() == 0 {
                Ok(vs)
            } else {
                match number_value(trim_spaces(before_star(ts.last()))) {
                    Err(e) => Err(e),
                    Ok(v) => Ok(vs.push(v)),
                }
            },
        }
    }
}

/// What one input line contributes: `None` for a comment, else its numbers.
pub open spec fn line_values(line: Seq<char>) -> Result<Option<Seq<Rational>>, ParseError> {
    if line.len() < 2 {
        Err(ParseError::ShortLine)
    } else if line[0] == '/' && line[1] == '/' {
        Ok(None)
    } else {
        match term_values(split_terms(replace_ge(strip(line)))) {
            Err(e) => Err(e),
            Ok(vs) => Ok(Some(vs)),
        }
    }
}

/// The rows of all non-comment lines, in order; the first bad line decides
/// the error.
pub open spec fn collect_rows(lines: Seq<Seq<char>>) -> Result<Seq<Seq<Rational>>, ParseError>
    decreases lines.len(),
{
    if lines.len() == 0 {
        Ok(Seq::empty())
    } else {
        match collect_rows(lines.drop_last()) {
            Err(e) => Err(e),
            Ok(rows) => match line_values(lines.last()) {
                Err(e) => Err(e),
                Ok(None) => Ok(rows),
                Ok(Some(vs)) => Ok(rows.push(vs)),
            },
        }
    }
}

/// The rows of the problem: the constraint rows in order, then the objective
/// (the first row) with a one appended. Every row must have the objective's
/// width.
pub open spec fn problem_rows(lines: Seq<Seq<char>>) -> Result<Seq<Seq<Rational>>, ParseError> {
    match collect_rows(lines) {
        Err(e) => Err(e),
        Ok(rows) => if rows.len() == 0 {
            Err(ParseError::NoRows)
        } else {
            let all = rows.skip(1).push(rows[0].push(one_value()));
            if forall|i: int| 0 <= i < all.len() ==> (#[trigger] all[i]).len() == all.last().len() {
                Ok(all)
            } else {
                Err(ParseError::RaggedRows)
            }
        },
    }
}

pub open spec fn row_views(rows: Seq<Vec<Rational>>) -> Seq<Seq<Rational>> {
    rows.map_values(|v: Vec<Rational>| v@)
}

pub open spec fn string_views(lines: Seq<String>) -> Seq<Seq<char>> {
    lines.map_values(|s: String| s@)
}

/// The numbers of one input line, or `None` for a comment line.
pub fn parse_line(line: &str) -> (r: Result<Option<Vec<Rational>>, ParseError>)
    ensures
        match (r, line_values(line@)) {
            (Ok(None), Ok(None)) => true,
            (Ok(Some(v)), Ok(Some(s))) => v@ == s,
            (Err(e), Err(f)) => e == f,
            _ => false,
        },
        r matches Ok(Some(v)) ==> forall|j: int| 0 <= j < v@.len() ==> (#[trigger] v@[j]).wf(),
{
    let mut chars = chars_of(line);
    if chars.len() < 2 {
        return Err(ParseError::ShortLine);
    }
    if chars[0] == '/' && chars[1] == '/' {
        return Ok(None);
    }
    assert(line@.len() >= 2 && !(line@[0] == '/' && line@[1] == '/'));
    remove_unwanted_chars(&mut chars);
    let replaced = replace_ge_with_plus(&chars);
    let terms = split_on_plus(&replaced);
    let ghost ts = split_terms(replace_ge(strip(line@)));
    assert(views(terms@) == ts);
    let mut values: Vec<Rational> = Vec::new();
    let mut k: usize = 0;
    while k < terms.len()
        invariant
            views(terms@) == ts,
            ts == split_terms(replace_ge(strip(line@))),
            line@.len() >= 2 && !(line@[0] == '/' && line@[1] == '/'),
            k <= terms@.len(),
            term_values(ts.subrange(0, k as int)) == Ok::<Seq<Rational>, ParseError>(values@),
            forall|j: int| 0 <= j < values@.len() ==> (#[trigger] values@[j]).wf(),
        decreases terms.len() - k,
    {
        let ghost pre = ts.subrange(0, k as int);
        let ghost post = ts.subrange(0, k + 1);
        assert(post.drop_last() =~= pre);
        assert(post.last() == terms@[k as int]@);
        if terms[k].len() > 0 {
            let cut = cut_at_star(&terms[k]);
            let trimmed = trim_spaces_of(&cut);
            match parse_number(&trimmed) {
                Err(e) => {
                    assert(term_values(post) == Err::<Seq<Rational>, ParseError>(e));
                    proof { lemma_term_values_err(ts, (k + 1) as int, ts.len() as int); }
                    assert(ts.subrange(0, ts.len() as int) =~= ts);
                    assert(term_values(ts) == Err::<Seq<Rational>, ParseError>(e));
                    return Err(e);
                },
                Ok(v) => {
                    values.push(v);
                },
            }
        }
        k += 1;
    }
    assert(ts.subrange(0, ts.len() as int) =~= ts);
    Ok(Some(values))
}

proof fn lemma_term_values_err(ts: Seq<Seq<char>>, k: int, l: int)
    requires
        0 <= k <= l <= ts.len(),
        term_values(ts.subrange(0, k)) is Err,
    ensures
        term_values(ts.subrange(0, l)) == term_values(ts.subrange(0, k)),
    decreases l - k,
{
    if k < l {
        lemma_term_values_err(ts, k, l - 1);
        assert(ts.subrange(0, l).drop_last() =~= ts.subrange(0, l - 1));
    }
}

proof fn lemma_collect_rows_err(lines: Seq<Seq<char>>, k: int, l: int)
    requires
        0 <= k <= l <= lines.len(),
        collect_rows(lines.subrange(0, k)) is Err,
    ensures
        collect_rows(lines.subrange(0, l)) == collect_rows(lines.subrange(0, k)),
    decreases l - k,
{
    if k < l {
        lemma_collect_rows_err(lines, k, l - 1);
        assert(lines.subrange(0, l).drop_last() =~= lines.subrange(0, l - 1));
    }
}

/// Reads a problem from its lines: the first non-comment line is the
/// objective, the others are constraints. The result has the constraint rows
/// first and the objective row, with a one appended, last.
pub fn parse_problem(lines: &Vec<String>) -> (r: Result<Tableau, ParseError>)
    ensures
        match (r, problem_rows(string_views(lines@))) {
            (Ok(t), Ok(rows)) => {
                &&& t.wf()
                &&& t.m == rows.len()
                &&& t.m >= 1
                &&& t.n == rows.last().len()
                &&& t.n >= 1
                &&& row_views(t.matrix@) == rows
            },
            (Err(e), Err(f)) => e == f,
            _ => false,
        },
{
    let ghost ls = string_views(lines@);
    let mut rows: Vec<Vec<Rational>> = Vec::new();
    let mut k: usize = 0;
    assert(ls.subrange(0, 0) =~= Seq::<Seq<char>>::empty());
    assert(row_views(rows@) =~= Seq::<Seq<Rational>>::empty());
    while k < lines.len()
        invariant
            ls == string_views(lines@),
            k <= lines@.len(),
            collect_rows(ls.subrange(0, k as int)) == Ok::<Seq<Seq<Rational>>, ParseError>(row_views(rows@)),
            forall|a: int, b: int| 0 <= a < rows@.len() && 0 <= b < rows@[a]@.len() ==> (#[trigger] rows@[a]@[b]).wf(),
        decreases lines.len() - k,
    {
        let ghost pre = ls.subrange(0, k as int);
        let ghost post = ls.subrange(0, k + 1);
        assert(post.drop_last() =~= pre);
        assert(post.last() == lines@[k as int]@);
        match parse_line(lines[k].as_str()) {
            Err(e) => {
                proof { lemma_collect_rows_err(ls, (k + 1) as int, ls.len() as int); }
                assert(ls.subrange(0, ls.len() as int) =~= ls);
                return Err(e);
            },
            Ok(None) => {},
            Ok(Some(v)) => {
                let ghost before = row_views(rows@);
                rows.push(v);
                assert(row_views(rows@) =~= before.push(v@));
            },
        }
        k += 1;
    }
    assert(ls.subrange(0, ls.len() as int) =~= ls);
    if rows.len() == 0 {
        return Err(ParseError::NoRows);
    }
    let ghost collected = row_views(rows@);
    let ghost before_rows = rows@;
    let mut objective = rows.remove(0);
    objective.push(Rational::one());
    rows.push(objective);
    assert forall|a: int, b: int| 0 <= a < rows@.len() && 0 <= b < rows@[a]@.len() implies (
    #[trigger] rows@[a]@[b]).wf() by {
        if a < rows@.len() - 1 {
            assert(rows@[a] == before_rows[a + 1]);
        } else if b < before_rows[0]@.len() {
            assert(rows@[a]@[b] == before_rows[0]@[b]);
        }
    }
    let ghost all = collected.skip(1).push(collected[0].push(one_value()));
    assert(row_views(rows@) =~= all);
    let m = rows.len();
    let n = rows[m - 1].len();
    let mut i: usize = 0;
    while i < m
        invariant
            m == rows@.len(),
            m >= 1,
            row_views(rows@) == all,
            n == all.last().len(),
            collect_rows(ls) == Ok::<Seq<Seq<Rational>>, ParseError>(collected),
            ls == string_views(lines@),
            all == collected.skip(1).push(collected[0].push(one_value())),
            collected.len() >= 1,
            i <= m,
            forall|a: int| 0 <= a < i ==> (#[trigger] all[a]).len() == n,
            forall|a: int, b: int| 0 <= a < rows@.len() && 0 <= b < rows@[a]@.len() ==> (#[trigger] rows@[a]@[b]).wf(),
        decreases m - i,
    {
        assert(rows@[i as int]@ == all[i as int]);
        if rows[i].len() != n {
            assert(all[i as int].len() != all.last().len());
            assert(collect_rows(ls) == Ok::<Seq<Seq<Rational>>, ParseError>(collected));
            return Err(ParseError::RaggedRows);
        }
        i += 1;
    }
    assert(collect_rows(ls) == Ok::<Seq<Seq<Rational>>, ParseError>(collected));
    assert(problem_rows(ls) == Ok::<Seq<Seq<Rational>>, ParseError>(all));
    let t = Tableau { m, n, matrix: rows };
    proof {
        assert forall|a: int, b: int| 0 <= a < m && 0 <= b < n implies (#[trigger] t.cell(a, b)).wf() by {
            assert(t.matrix@[a]@ == all[a]);
        }
        assert forall|a: int| 0 <= a < m implies (#[trigger] t.matrix@[a])@.len() == n by {
            assert(t.matrix@[a]@ == all[a]);
        }
    }
    Ok(t)
}

} // verus!
