use crate::rational::{
    lemma_from_frac_denotes, spec_div, spec_mul, spec_sub, Rational,
};
use crate::tableau::{zero_value, Tableau};
use vstd::prelude::*;

verus! {

/// Why the simplex loop stopped without reaching an optimal tableau.
#[derive(Clone, Copy, Debug, PartialEq, Eq, Structural)]
pub enum SolveError {
    /// An exact intermediate value left the range of a `Rational`.
    Overflow,
    /// No constraint row has a nonzero entry in the pivot column.
    Unbounded,
    /// The pivot budget ran out before the objective row lost its negatives.
    StepLimit,
}

/// Some entry of the objective row, right-hand side included, is negative.
pub open spec fn has_negative(t: Tableau) -> bool {
    exists|j: int| 0 <= j < t.n && (#[trigger] t.cell(t.obj(), j)).is_negative()
}

/// `c` is the column a left-to-right scan for the most negative objective
/// entry settles on: the first column holding the least value when some entry
/// is negative, column zero otherwise.
pub open spec fn is_pivot_col(t: Tableau, c: int) -> bool {
    &&& 0 <= c < t.n
    &&& if has_negative(t) {
        &&& t.cell(t.obj(), c).is_negative()
        &&& forall|j: int| 0 <= j < t.n ==> !(#[trigger] t.cell(t.obj(), j)).less_than(t.cell(t.obj(), c))
        &&& forall|j: int| 0 <= j < c ==> t.cell(t.obj(), c).less_than(#[trigger] t.cell(t.obj(), j))
    } else {
        c == 0
    }
}

/// The ratio test over rows `0..k`: rows whose pivot-column entry is zero are
/// passed over; the first row with a ratio is taken whatever its sign, and a
/// later one replaces the current choice when its ratio is positive and the
/// current one is not, or both are positive and the new one is strictly
/// smaller. A ratio that does not fit makes the test fail.
pub open spec fn row_choice(t: Tableau, pc: int, k: int) -> Result<Option<(int, Rational)>, SolveError>
    decreases k,
{
    if k <= 0 {
        Ok(None)
    } else {
        match row_choice(t, pc, k - 1) {
            Err(e) => Err(e),
            Ok(prev) => if t.cell(k - 1, pc).is_zero() {
                Ok(prev)
            } else {
                match spec_div(t.cell(k - 1, t.rhs()), t.cell(k - 1, pc)) {
                    None => Err(SolveError::Overflow),
                    Some(r) => match prev {
                        None => Ok(Some((k - 1, r))),
                        Some((b, mr)) => if r.is_positive() && (!mr.is_positive() || r.less_than(mr)) {
                            Ok(Some((k - 1, r)))
                        } else {
                            Ok(prev)
                        },
                    },
                }
            },
        }
    }
}

/// The row the ratio test picks for column `pc` among the constraint rows.
pub open spec fn chosen_row(t: Tableau, pc: int) -> Option<int> {
    match row_choice(t, pc, t.obj()) {
        Ok(Some((b, _))) => Some(b),
        _ => None,
    }
}

/// The ratio of row `i`: its right-hand side over its entry in column `pc`.
pub open spec fn ratio_of(t: Tableau, pc: int, i: int) -> Option<Rational> {
    spec_div(t.cell(i, t.rhs()), t.cell(i, pc))
}

/// Row `i` has a nonzero entry in column `pc` and a positive ratio.
pub open spec fn positive_ratio(t: Tableau, pc: int, i: int) -> bool {
    &&& !t.cell(i, pc).is_zero()
    &&& ratio_of(t, pc, i) matches Some(q)
    &&& q.is_positive()
}

/// Row `i` has the least positive ratio of the constraint rows, and every
/// earlier row with a positive ratio has a strictly larger one.
pub open spec fn is_first_least_ratio(t: Tableau, pc: int, i: int) -> bool {
    let q = ratio_of(t, pc, i).unwrap();
    &&& forall|k: int|
        0 <= k < t.obj() && #[trigger] positive_ratio(t, pc, k) ==> !ratio_of(t, pc, k).unwrap().less_than(q)
    &&& forall|k: int| 0 <= k < i && #[trigger] positive_ratio(t, pc, k) ==> q.less_than(ratio_of(t, pc, k).unwrap())
}

/// Entry `j` of the pivot row divided by the pivot element.
pub open spec fn scaled_entry(t: Tableau, pr: int, pc: int, j: int) -> Option<Rational> {
    spec_div(t.cell(pr, j), t.cell(pr, pc))
}

/// Entry `(i, j)` after a Gauss-Jordan step on `(pr, pc)`, where every
/// intermediate value fits.
pub open spec fn pivoted_entry(t: Tableau, pr: int, pc: int, i: int, j: int) -> Option<Rational> {
    if i == pr {
        scaled_entry(t, pr, pc, j)
    } else {
        match scaled_entry(t, pr, pc, j) {
            None => None,
            Some(q) => match spec_mul(t.cell(i, pc), q) {
                None => None,
                Some(w) => spec_sub(t.cell(i, j), w),
            },
        }
    }
}

/// Every entry of the pivot step on `(pr, pc)` fits.
pub open spec fn pivot_fits(t: Tableau, pr: int, pc: int) -> bool {
    forall|i: int, j: int| 0 <= i < t.m && 0 <= j < t.n ==> (#[trigger] pivoted_entry(t, pr, pc, i, j)) is Some
}

/// `u` is `t` after the pivot step on `(pr, pc)`.
pub open spec fn is_pivot_result(t: Tableau, u: Tableau, pr: int, pc: int) -> bool {
    &&& u.m == t.m
    &&& u.n == t.n
    &&& forall|i: int, j: int|
        0 <= i < t.m && 0 <= j < t.n ==> pivoted_entry(t, pr, pc, i, j) == Some(#[trigger] u.cell(i, j))
}

/// One more round on `u` ends in `e`: the pivot budget ran out with a
/// negative objective entry left, or the round itself failed with `e`.
pub open spec fn stops_with(u: Tableau, e: SolveError) -> bool {
    &&& has_negative(u)
    &&& e != SolveError::StepLimit ==> exists|pc: int|
        is_pivot_col(u, pc) && match e {
            SolveError::Unbounded => #[trigger] row_choice(u, pc, u.obj()) == Ok::<
                Option<(int, Rational)>,
                SolveError,
            >(None),
            _ => row_choice(u, pc, u.obj()) is Err || (chosen_row(u, pc) is Some && !pivot_fits(
                u,
                chosen_row(u, pc).unwrap(),
                pc,
            )),
        }
}

/// `u` is `t` after one round of the simplex loop.
pub open spec fn is_step(t: Tableau, u: Tableau) -> bool {
    &&& has_negative(t)
    &&& exists|pc: int|
        is_pivot_col(t, pc) && (#[trigger] chosen_row(t, pc)) is Some && is_pivot_result(
            t,
            u,
            chosen_row(t, pc).unwrap(),
            pc,
        )
}

/// Each tableau of `path` is the one before it after one round of the
/// simplex loop.
pub open spec fn is_run(path: Seq<Tableau>) -> bool {
    forall|i: int| 0 <= i < path.len() - 1 ==> #[trigger] is_step(path[i], path[i + 1])
}

/// `u` is `t` after `k` rounds of the simplex loop.
pub open spec fn reaches(t: Tableau, u: Tableau, k: nat) -> bool {
    exists|path: Seq<Tableau>|
        #[trigger] is_run(path) && path.len() == k + 1 && path[0] == t && path.last() == u
}

proof fn lemma_lt_trans(a: Rational, b: Rational, c: Rational)
    requires
        a.wf(),
        b.wf(),
        c.wf(),
        a.less_than(b),
        b.less_than(c),
    ensures
        a.less_than(c),
{
    let (an, ad, bn, bd, cn, cd) = (a.num as int, a.den as int, b.num as int, b.den as int, c.num as int, c.den as int);
    assert(an * cd < cn * ad) by (nonlinear_arith)
        requires an * bd < bn * ad, bn * cd < cn * bd, ad > 0, bd > 0, cd > 0;
}

proof fn lemma_lt_le_trans(a: Rational, b: Rational, c: Rational)
    requires
        a.wf(),
        b.wf(),
        c.wf(),
        a.less_than(b),
        !c.less_than(b),
    ensures
        a.less_than(c),
{
    let (an, ad, bn, bd, cn, cd) = (a.num as int, a.den as int, b.num as int, b.den as int, c.num as int, c.den as int);
    assert(an * cd < cn * ad) by (nonlinear_arith)
        requires an * bd < bn * ad, cn * bd >= bn * cd, ad > 0, bd > 0, cd > 0;
}

impl Tableau {
    /// Whether some objective-row entry is negative. The right-hand side is
    /// scanned too, so a negative objective value keeps the loop running.
    pub fn check_for_negatives(&self) -> (r: bool)
        requires
            self.wf(),
            self.m >= 1,
        ensures
            r == has_negative(*self),
    {
        let last = self.m - 1;
        let mut j: usize = 0;
        while j < self.n
            invariant
                self.wf(),
                last == self.obj(),
                j <= self.n,
                forall|b: int| 0 <= b < j ==> !(#[trigger] self.cell(last as int, b)).is_negative(),
            decreases self.n - j,
        {
            if self.matrix[last][j].is_neg() {
                assert(self.cell(last as int, j as int).is_negative());
                return true;
            }
            j += 1;
        }
        false
    }

    /// The column of the most negative objective-row entry, the first one on
    /// a tie, or zero when none is negative.
    pub fn find_pivot_col(&self) -> (c: usize)
        requires
            self.wf(),
            self.m >= 1,
            self.n >= 1,
        ensures
            is_pivot_col(*self, c as int),
    {
        let last = self.m - 1;
        let ghost o = self.obj();
        let mut best = Rational::zero();
        let mut result: usize = 0;
        let mut j: usize = 0;
        while j < self.n
            invariant
                self.wf(),
                self.n >= 1,
                last == o,
                o == self.obj(),
                j <= self.n,
                best.wf(),
                result < self.n,
                forall|b: int| 0 <= b < j ==> !(#[trigger] self.cell(o, b)).less_than(best),
                forall|b: int| 0 <= b < result ==> best.less_than(#[trigger] self.cell(o, b)),
                (best == zero_value() && result == 0) || (result < j && best == self.cell(o, result as int)
                    && best.is_negative()),
            decreases self.n - j,
        {
            let x = self.matrix[last][j];
            assert(x == self.cell(o, j as int));
            if x.lt(best) {
                proof {
                    assert forall|b: int| 0 <= b <= j implies !(#[trigger] self.cell(o, b)).less_than(x) by {
                        if b < j && self.cell(o, b).less_than(x) {
                            lemma_lt_trans(self.cell(o, b), x, best);
                        }
                    }
                    assert forall|b: int| 0 <= b < j implies x.less_than(#[trigger] self.cell(o, b)) by {
                        lemma_lt_le_trans(x, best, self.cell(o, b));
                    }
                    if best != zero_value() {
                        assert(best.less_than(zero_value()));
                        lemma_lt_trans(x, best, zero_value());
                    }
                    assert(x.less_than(zero_value()));
                    assert(x.is_negative());
                }
                best = x;
                result = j;
            }
            j += 1;
        }
        proof {
            if has_negative(*self) {
                let w = choose|b: int| 0 <= b < self.n && (#[trigger] self.cell(o, b)).is_negative();
                if best == zero_value() {
                    assert(self.cell(o, w).less_than(best));
                }
            }
        }
        result
    }

    /// The pivot row chosen by the ratio test over the constraint rows, `None`
    /// when every constraint row has a zero in column `pc`.
    pub fn find_pivot_row(&self, pc: usize) -> (r: Result<Option<usize>, SolveError>)
        requires
            self.wf(),
            self.m >= 1,
            self.n >= 1,
            pc < self.n,
        ensures
            match (r, row_choice(*self, pc as int, self.obj())) {
                (Ok(None), Ok(None)) => true,
                (Ok(Some(i)), Ok(Some((b, _)))) => i == b,
                (Err(e), Err(f)) => e == f,
                _ => false,
            },
            r matches Ok(Some(i)) ==> i < self.obj() && !self.cell(i as int, pc as int).is_zero(),
            r is Ok ==> forall|k: int|
                0 <= k < self.obj() && !self.cell(k, pc as int).is_zero() ==> #[trigger] ratio_of(
                    *self,
                    pc as int,
                    k,
                ) is Some,
            r == Ok::<Option<usize>, SolveError>(None) ==> forall|k: int|
                0 <= k < self.obj() ==> (#[trigger] self.cell(k, pc as int)).is_zero(),
            // Where some constraint row has a positive ratio, the first row
            // with the least positive ratio is chosen.
            r matches Ok(Some(i)) ==> ((exists|k: int| 0 <= k < self.obj() && #[trigger] positive_ratio(*self, pc as int, k))
                ==> positive_ratio(*self, pc as int, i as int) && is_first_least_ratio(*self, pc as int, i as int)),
    {
        let last = self.m - 1;
        let rhs = self.n - 1;
        let mut result: Option<usize> = None;
        let mut min_ratio = Rational::zero();
        let mut i: usize = 0;
        while i < last
            invariant
                self.wf(),
                last == self.obj(),
                rhs == self.rhs(),
                pc < self.n,
                i <= last,
                min_ratio.wf(),
                row_choice(*self, pc as int, i as int) == Ok::<Option<(int, Rational)>, SolveError>(
                    match result {
                        None => None,
                        Some(b) => Some((b as int, min_ratio)),
                    },
                ),
                result matches Some(b) ==> b < i && !self.cell(b as int, pc as int).is_zero() && ratio_of(
                    *self,
                    pc as int,
                    b as int,
                ) == Some(min_ratio),
                result is None ==> !min_ratio.is_positive(),
                result is None ==> forall|k: int| 0 <= k < i ==> (#[trigger] self.cell(k, pc as int)).is_zero(),
                forall|k: int|
                    0 <= k < i && !self.cell(k, pc as int).is_zero() ==> #[trigger] ratio_of(*self, pc as int, k) is Some,
                !min_ratio.is_positive() ==> forall|k: int| 0 <= k < i ==> !#[trigger] positive_ratio(*self, pc as int, k),
                min_ratio.is_positive() ==> forall|k: int|
                    0 <= k < i && #[trigger] positive_ratio(*self, pc as int, k) ==> !ratio_of(
                        *self,
                        pc as int,
                        k,
                    ).unwrap().less_than(min_ratio),
                min_ratio.is_positive() ==> result is Some,
                min_ratio.is_positive() ==> forall|k: int|
                    0 <= k < result.unwrap() && #[trigger] positive_ratio(*self, pc as int, k) ==> min_ratio.less_than(
                        ratio_of(*self, pc as int, k).unwrap(),
                    ),
            decreases last - i,
        {
            let a = self.matrix[i][pc];
            assert(a == self.cell(i as int, pc as int));
            if a.is_nonzero() {
                let v = self.matrix[i][rhs];
                assert(v == self.cell(i as int, rhs as int));
                match v.div(a) {
                    None => {
                        assert(row_choice(*self, pc as int, i + 1) is Err);
                        proof { lemma_row_choice_err(*self, pc as int, i + 1, last as int); }
                        return Err(SolveError::Overflow);
                    },
                    Some(ratio) => {
                        proof { lemma_div_wf(v, a); }
                        assert(ratio_of(*self, pc as int, i as int) == Some(ratio));
                        match result {
                            None => {
                                result = Some(i);
                                min_ratio = ratio;
                            },
                            Some(_) => {
                                if ratio.is_pos() && (!min_ratio.is_pos() || ratio.lt(min_ratio)) {
                                    proof {
                                        if min_ratio.is_positive() {
                                            assert forall|k: int|
                                                0 <= k < i && #[trigger] positive_ratio(*self, pc as int, k) implies !ratio_of(
                                                *self,
                                                pc as int,
                                                k,
                                            ).unwrap().less_than(ratio) by {
                                                let q = ratio_of(*self, pc as int, k).unwrap();
                                                lemma_div_wf(self.cell(k, rhs as int), self.cell(k, pc as int));
                                                if q.less_than(ratio) {
                                                    lemma_lt_trans(q, ratio, min_ratio);
                                                }
                                            }
                                            assert forall|k: int|
                                                0 <= k < i && #[trigger] positive_ratio(*self, pc as int, k) implies ratio.less_than(
                                                ratio_of(*self, pc as int, k).unwrap(),
                                            ) by {
                                                let q = ratio_of(*self, pc as int, k).unwrap();
                                                lemma_div_wf(self.cell(k, rhs as int), self.cell(k, pc as int));
                                                lemma_lt_le_trans(ratio, min_ratio, q);
                                            }
                                        }
                                    }
                                    result = Some(i);
                                    min_ratio = ratio;
                                }
                            },
                        }
                    },
                }
            }
            i += 1;
        }
        Ok(result)
    }
}

proof fn lemma_div_wf(a: Rational, b: Rational)
    requires
        a.wf(),
        b.wf(),
        !b.is_zero(),
    ensures
        spec_div(a, b) matches Some(v) ==> v.wf(),
{
    let (an, ad, bn, bd) = (a.num as int, a.den as int, b.num as int, b.den as int);
    if bn < 0 {
        assert(-(ad * bn) > 0) by (nonlinear_arith) requires ad > 0, bn < 0;
        lemma_from_frac_denotes(-(an * bd), -(ad * bn));
    } else {
        assert(ad * bn > 0) by (nonlinear_arith) requires ad > 0, bn > 0;
        lemma_from_frac_denotes(an * bd, ad * bn);
    }
}

/// Once the ratio test fails on a prefix, it fails on every longer prefix.
proof fn lemma_row_choice_err(t: Tableau, pc: int, k: int, l: int)
    requires
        row_choice(t, pc, k) is Err,
        k <= l,
    ensures
        row_choice(t, pc, l) == row_choice(t, pc, k),
    decreases l - k,
{
    if k < l {
        lemma_row_choice_err(t, pc, k, l - 1);
    }
}


proof fn lemma_ops_wf(a: Rational, b: Rational)
    requires
        a.wf(),
        b.wf(),
    ensures
        spec_mul(a, b) matches Some(v) ==> v.wf(),
        spec_sub(a, b) matches Some(v) ==> v.wf(),
{
    let (ad, bd) = (a.den as int, b.den as int);
    assert(ad * bd > 0) by (nonlinear_arith) requires ad > 0, bd > 0;
    lemma_from_frac_denotes(a.num * b.num, ad * bd);
    lemma_from_frac_denotes(a.num * bd - b.num * ad, ad * bd);
}

/// Right after a pivot step on `(pr, pc)` the pivot element is one and every
/// other entry of the pivot column is zero.
pub proof fn lemma_pivot_normalization(t: Tableau, u: Tableau, pr: int, pc: int)
    requires
        t.wf(),
        0 <= pr < t.m,
        0 <= pc < t.n,
        !t.cell(pr, pc).is_zero(),
        is_pivot_result(t, u, pr, pc),
    ensures
        u.cell(pr, pc).is_one(),
        forall|i: int| 0 <= i < t.m && i != pr ==> (#[trigger] u.cell(i, pc)).is_zero(),
{
    let p = t.cell(pr, pc);
    assert(pivoted_entry(t, pr, pc, pr, pc) == Some(u.cell(pr, pc)));
    let q = u.cell(pr, pc);
    let (pn, pd) = (p.num as int, p.den as int);
    if pn < 0 {
        let d = -(pd * pn);
        assert(d > 0 && -(pn * pd) == d) by (nonlinear_arith) requires pd > 0, pn < 0, d == -(pd * pn);
        lemma_from_frac_denotes(d, d);
    } else {
        let d = pd * pn;
        assert(d > 0 && pn * pd == d) by (nonlinear_arith) requires pd > 0, pn > 0, d == pd * pn;
        lemma_from_frac_denotes(d, d);
    }
    let (qn, qd) = (q.num as int, q.den as int);
    assert(qn == qd) by (nonlinear_arith)
        requires exists|d: int| d > 0 && #[trigger] (qn * d) == d * qd;
    assert forall|i: int| 0 <= i < t.m && i != pr implies (#[trigger] u.cell(i, pc)).is_zero() by {
        assert(pivoted_entry(t, pr, pc, i, pc) == Some(u.cell(i, pc)));
        let mu = t.cell(i, pc);
        let w = spec_mul(mu, q).unwrap();
        let z = u.cell(i, pc);
        let (mn, md, wn, wd, zn, zd) = (mu.num as int, mu.den as int, w.num as int, w.den as int, z.num as int, z.den as int);
        assert(md * qd > 0) by (nonlinear_arith) requires md > 0, qd > 0;
        lemma_from_frac_denotes(mn * qn, md * qd);
        assert(wn * md == mn * wd) by (nonlinear_arith)
            requires wn * (md * qd) == (mn * qn) * wd, qn == qd, qd > 0;
        lemma_ops_wf(mu, q);
        assert(md * wd > 0) by (nonlinear_arith) requires md > 0, wd > 0;
        lemma_from_frac_denotes(mn * wd - wn * md, md * wd);
        assert(zn == 0) by (nonlinear_arith)
            requires zn * (md * wd) == (mn * wd - wn * md) * zd, wn * md == mn * wd, md * wd > 0;
    }
}

impl Tableau {
    /// Gauss-Jordan step on `(pr, pc)`: the pivot row is divided by the pivot
    /// element, then each other row loses the multiple of the new pivot row
    /// that zeroes its entry in column `pc`. On overflow the tableau is left
    /// as it was.
    pub fn pivot_on(&mut self, pc: usize, pr: usize) -> (r: Result<(), SolveError>)
        requires
            old(self).wf(),
            pr < old(self).m,
            pc < old(self).n,
            !old(self).cell(pr as int, pc as int).is_zero(),
        ensures
            r is Ok <==> pivot_fits(*old(self), pr as int, pc as int),
            r is Ok ==> final(self).wf() && is_pivot_result(*old(self), *final(self), pr as int, pc as int),
            r is Ok ==> final(self).cell(pr as int, pc as int).is_one(),
            r is Ok ==> forall|i: int|
                0 <= i < old(self).m && i != pr ==> (#[trigger] final(self).cell(i, pc as int)).is_zero(),
            r is Err ==> r == Err::<(), SolveError>(SolveError::Overflow) && *final(self) == *old(self),
    {
        let ghost t = *self;
        let m = self.m;
        let n = self.n;
        let p = self.matrix[pr][pc];
        assert(p == t.cell(pr as int, pc as int));
        assert(p.wf());
        let mut prow: Vec<Rational> = Vec::new();
        let mut j: usize = 0;
        while j < n
            invariant
                *self == t,
                t.wf(),
                m == t.m,
                n == t.n,
                pr < m,
                p == t.cell(pr as int, pc as int),
                p.wf(),
                !p.is_zero(),
                j <= n,
                prow@.len() == j,
                forall|b: int| 0 <= b < j ==> scaled_entry(t, pr as int, pc as int, b) == Some(#[trigger] prow@[b]),
            decreases n - j,
        {
            let x = self.matrix[pr][j];
            assert(x == t.cell(pr as int, j as int));
            match x.div(p) {
                None => {
                    assert(pivoted_entry(t, pr as int, pc as int, pr as int, j as int) is None);
                    return Err(SolveError::Overflow);
                },
                Some(q) => {
                    prow.push(q);
                },
            }
            j += 1;
        }
        let mut matrix: Vec<Vec<Rational>> = Vec::new();
        let mut i: usize = 0;
        while i < m
            invariant
                *self == t,
                t.wf(),
                m == t.m,
                n == t.n,
                pr < m,
                pc < n,
                !t.cell(pr as int, pc as int).is_zero(),
                prow@.len() == n,
                forall|b: int| 0 <= b < n ==> scaled_entry(t, pr as int, pc as int, b) == Some(#[trigger] prow@[b]),
                i <= m,
                matrix@.len() == i,
                forall|a: int| 0 <= a < i ==> (#[trigger] matrix@[a])@.len() == n,
                forall|a: int, b: int|
                    0 <= a < i && 0 <= b < n ==> pivoted_entry(t, pr as int, pc as int, a, b) == Some(
                        #[trigger] matrix@[a]@[b],
                    ),
            decreases m - i,
        {
            let mult = self.matrix[i][pc];
            assert(mult == t.cell(i as int, pc as int));
            let mut row: Vec<Rational> = Vec::new();
            let mut j: usize = 0;
            while j < n
                invariant
                    *self == t,
                    t.wf(),
                    m == t.m,
                    n == t.n,
                    i < m,
                    pr < m,
                    pc < n,
                    !t.cell(pr as int, pc as int).is_zero(),
                    mult == t.cell(i as int, pc as int),
                    prow@.len() == n,
                    forall|b: int| 0 <= b < n ==> scaled_entry(t, pr as int, pc as int, b) == Some(#[trigger] prow@[b]),
                    j <= n,
                    row@.len() == j,
                    forall|b: int|
                        0 <= b < j ==> pivoted_entry(t, pr as int, pc as int, i as int, b) == Some(
                            #[trigger] row@[b],
                        ),
                decreases n - j,
            {
                let q = prow[j];
                assert(scaled_entry(t, pr as int, pc as int, j as int) == Some(q));
                proof { lemma_div_wf(t.cell(pr as int, j as int), t.cell(pr as int, pc as int)); }
                if i == pr {
                    row.push(q);
                } else {
                    match mult.mul(q) {
                        None => {
                            assert(pivoted_entry(t, pr as int, pc as int, i as int, j as int) is None);
                            return Err(SolveError::Overflow);
                        },
                        Some(w) => {
                            proof { lemma_ops_wf(mult, q); }
                            let x = self.matrix[i][j];
                            assert(x == t.cell(i as int, j as int));
                            match x.sub(w) {
                                None => {
                                    assert(pivoted_entry(t, pr as int, pc as int, i as int, j as int) is None);
                                    return Err(SolveError::Overflow);
                                },
                                Some(z) => {
                                    row.push(z);
                                },
                            }
                        },
                    }
                }
                j += 1;
            }
            matrix.push(row);
            i += 1;
        }
        self.matrix = matrix;
        proof {
            assert forall|a: int, b: int| 0 <= a < m && 0 <= b < n implies (#[trigger] self.cell(a, b)).wf() by {
                assert(pivoted_entry(t, pr as int, pc as int, a, b) == Some(matrix@[a]@[b]));
                lemma_div_wf(t.cell(pr as int, b), t.cell(pr as int, pc as int));
                if a != pr {
                    lemma_ops_wf(t.cell(a, pc as int), scaled_entry(t, pr as int, pc as int, b).unwrap());
                    lemma_ops_wf(t.cell(a, b), spec_mul(t.cell(a, pc as int), scaled_entry(t, pr as int, pc as int, b).unwrap()).unwrap());
                }
            }
            assert forall|a: int, b: int| 0 <= a < m && 0 <= b < n implies (#[trigger] pivoted_entry(
                t,
                pr as int,
                pc as int,
                a,
                b,
            )) is Some by {
                assert(pivoted_entry(t, pr as int, pc as int, a, b) == Some(matrix@[a]@[b]));
            }
            lemma_pivot_normalization(t, *self, pr as int, pc as int);
        }
        Ok(())
    }
}


/// The pivot column is unique.
proof fn lemma_pivot_col_unique(t: Tableau, c: int)
    requires
        is_pivot_col(t, c),
    ensures
        forall|d: int| #[trigger] is_pivot_col(t, d) ==> d == c,
{
    assert forall|d: int| #[trigger] is_pivot_col(t, d) implies d == c by {
        if has_negative(t) && d != c {
            assert(!t.cell(t.obj(), d).less_than(t.cell(t.obj(), c)));
            assert(!t.cell(t.obj(), c).less_than(t.cell(t.obj(), d)));
        }
    }
}

impl Tableau {
    /// One round of the simplex loop. When no objective entry is negative it
    /// returns `Ok(false)` and changes nothing; otherwise it pivots on the
    /// chosen column and row and returns `Ok(true)`. On an error the tableau
    /// is left as it was.
    pub fn step(&mut self) -> (r: Result<bool, SolveError>)
        requires
            old(self).wf(),
            old(self).m >= 1,
            old(self).n >= 1,
        ensures
            final(self).wf(),
            final(self).m == old(self).m,
            final(self).n == old(self).n,
            r == Ok::<bool, SolveError>(false) <==> !has_negative(*old(self)),
            !(r == Ok::<bool, SolveError>(true)) ==> *final(self) == *old(self),
            r == Ok::<bool, SolveError>(true) ==> is_step(*old(self), *final(self)),
            r == Err::<bool, SolveError>(SolveError::Unbounded) <==> has_negative(*old(self)) && exists|pc: int|
                is_pivot_col(*old(self), pc) && #[trigger] row_choice(*old(self), pc, old(self).obj()) == Ok::<
                    Option<(int, Rational)>,
                    SolveError,
                >(None),
            r == Err::<bool, SolveError>(SolveError::Overflow) ==> has_negative(*old(self)) && exists|pc: int|
                is_pivot_col(*old(self), pc) && (#[trigger] row_choice(*old(self), pc, old(self).obj()) is Err
                    || (chosen_row(*old(self), pc) is Some && !pivot_fits(
                    *old(self),
                    chosen_row(*old(self), pc).unwrap(),
                    pc,
                ))),
            r != Err::<bool, SolveError>(SolveError::StepLimit),
    {
        if !self.check_for_negatives() {
            return Ok(false);
        }
        let pc = self.find_pivot_col();
        let ghost t = *self;
        match self.find_pivot_row(pc) {
            Err(_) => {
                assert(is_pivot_col(t, pc as int) && row_choice(t, pc as int, t.obj()) is Err);
                proof { lemma_pivot_col_unique(t, pc as int); }
                Err(SolveError::Overflow)
            },
            Ok(None) => {
                assert(is_pivot_col(t, pc as int) && row_choice(t, pc as int, t.obj()) == Ok::<
                    Option<(int, Rational)>,
                    SolveError,
                >(None));
                Err(SolveError::Unbounded)
            },
            Ok(Some(pr)) => {
                match self.pivot_on(pc, pr) {
                    Err(e) => {
                        proof { lemma_pivot_col_unique(t, pc as int); }
                        assert(is_pivot_col(t, pc as int));
                        assert(chosen_row(t, pc as int) == Some(pr as int));
                        Err(e)
                    },
                    Ok(()) => {
                        assert(is_pivot_col(t, pc as int) && chosen_row(t, pc as int) == Some(pr as int)
                            && is_pivot_result(t, *self, pr as int, pc as int));
                        Ok(true)
                    },
                }
            },
        }
    }

    /// Runs the simplex loop for at most `max_pivots` pivots and returns how
    /// many it made once no objective entry is negative.
    pub fn solve(&mut self, max_pivots: usize) -> (r: Result<usize, SolveError>)
        requires
            old(self).wf(),
            old(self).m >= 1,
            old(self).n >= 1,
        ensures
            final(self).wf(),
            final(self).m == old(self).m,
            final(self).n == old(self).n,
            r matches Ok(k) ==> k <= max_pivots && !has_negative(*final(self)) && reaches(
                *old(self),
                *final(self),
                k as nat,
            ),
            r is Err ==> exists|k: nat| k <= max_pivots && #[trigger] reaches(*old(self), *final(self), k),
            r matches Err(e) ==> stops_with(*final(self), e),
            r == Err::<usize, SolveError>(SolveError::StepLimit) ==> reaches(
                *old(self),
                *final(self),
                max_pivots as nat,
            ),
            !has_negative(*old(self)) ==> r == Ok::<usize, SolveError>(0) && *final(self) == *old(self),
    {
        let ghost start = *self;
        let ghost mut path: Seq<Tableau> = seq![start];
        let mut k: usize = 0;
        while k < max_pivots
            invariant
                self.wf(),
                self.m == start.m,
                self.n == start.n,
                self.m >= 1,
                self.n >= 1,
                k <= max_pivots,
                start == *old(self),
                path.len() == k + 1,
                path[0] == start,
                path.last() == *self,
                is_run(path),
                k == 0 ==> *self == start,
                !has_negative(start) ==> k == 0,
            decreases max_pivots - k,
        {
            let ghost prev = *self;
            match self.step() {
                Ok(false) => {
                    assert(is_run(path));
                    return Ok(k);
                },
                Ok(true) => {
                    proof {
                        let old_path = path;
                        path = path.push(*self);
                        assert forall|i: int| 0 <= i < path.len() - 1 implies #[trigger] is_step(path[i], path[i + 1]) by {
                            if i < old_path.len() - 1 {
                                assert(path[i] == old_path[i] && path[i + 1] == old_path[i + 1]);
                            }
                        }
                    }
                    k += 1;
                },
                Err(e) => {
                    assert(is_run(path));
                    assert(reaches(start, *self, k as nat));
                    return Err(e);
                },
            }
        }
        assert(is_run(path));
        assert(reaches(start, *self, k as nat));
        if self.check_for_negatives() {
            Err(SolveError::StepLimit)
        } else {
            Ok(k)
        }
    }

    /// The value of each decision variable in an optimal tableau: variable
    /// `i` is the objective row's entry in slack column `i`, the slack
    /// columns being the `m` columns before the right-hand side.
    pub fn variable_values(&self) -> (r: Vec<Rational>)
        requires
            self.wf(),
            self.m >= 1,
            self.n > self.m,
        ensures
            r@.len() == self.obj(),
            forall|i: int|
                0 <= i < self.obj() ==> #[trigger] r@[i] == self.cell(self.obj(), self.n - self.m - 1 + i),
    {
        let last = self.m - 1;
        let first = self.n - self.m - 1;
        let mut r: Vec<Rational> = Vec::new();
        let mut i: usize = 0;
        while i < last
            invariant
                self.wf(),
                self.m >= 1,
                self.n > self.m,
                last == self.obj(),
                first == self.n - self.m - 1,
                i <= last,
                r@.len() == i,
                forall|a: int| 0 <= a < i ==> #[trigger] r@[a] == self.cell(self.obj(), first + a),
            decreases last - i,
        {
            r.push(self.matrix[last][first + i]);
            i += 1;
        }
        r
    }

    /// The right-hand side of the objective row.
    pub fn objective_value(&self) -> (r: Rational)
        requires
            self.wf(),
            self.m >= 1,
            self.n >= 1,
        ensures
            r == self.cell(self.obj(), self.rhs()),
    {
        self.matrix[self.m - 1][self.n - 1]
    }
}

} // verus!
