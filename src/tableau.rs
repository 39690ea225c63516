use crate::rational::Rational;
use vstd::prelude::*;

verus! {

/// A dense grid of `m` rows and `n` columns. During the simplex loop the last
/// row is the objective row and the last column the right-hand side.
pub struct Tableau {
    pub m: usize,
    pub n: usize,
    pub matrix: Vec<Vec<Rational>>,
}

pub open spec fn one_value() -> Rational {
    Rational { num: 1, den: 1 }
}

pub open spec fn zero_value() -> Rational {
    Rational { num: 0, den: 1 }
}

/// `r` holds the transpose of `t`.
pub open spec fn is_transpose_of(r: Tableau, t: Tableau) -> bool {
    &&& r.m == t.n
    &&& r.n == t.m
    &&& forall|i: int, j: int| 0 <= i < r.m && 0 <= j < r.n ==> #[trigger] r.cell(i, j) == t.cell(j, i)
}

impl Tableau {
    pub open spec fn cell(self, i: int, j: int) -> Rational {
        self.matrix@[i]@[j]
    }

    /// Rectangular, `m` rows of `n` columns, every entry a well-formed rational.
    pub open spec fn wf(self) -> bool {
        &&& self.matrix@.len() == self.m
        &&& forall|i: int| 0 <= i < self.m ==> (#[trigger] self.matrix@[i])@.len() == self.n
        &&& forall|i: int, j: int|
            0 <= i < self.m && 0 <= j < self.n ==> (#[trigger] self.cell(i, j)).wf()
    }

    /// Same dimensions and the same entries.
    pub open spec fn same_grid(self, o: Tableau) -> bool {
        &&& self.m == o.m
        &&& self.n == o.n
        &&& forall|i: int, j: int| 0 <= i < self.m && 0 <= j < self.n ==> #[trigger] self.cell(i, j) == o.cell(i, j)
    }

    /// Index of the objective row.
    pub open spec fn obj(self) -> int {
        self.m - 1
    }

    /// Index of the right-hand-side column.
    pub open spec fn rhs(self) -> int {
        self.n - 1
    }

    pub fn objective_row_index(&self) -> (r: usize)
        requires
            self.m >= 1,
        ensures
            r == self.obj(),
    {
        self.m - 1
    }

    pub fn rhs_column_index(&self) -> (r: usize)
        requires
            self.n >= 1,
        ensures
            r == self.rhs(),
    {
        self.n - 1
    }

    /// The entry at row `i`, column `j`.
    pub fn get(&self, i: usize, j: usize) -> (r: Rational)
        requires
            self.wf(),
            i < self.m,
            j < self.n,
        ensures
            r == self.cell(i as int, j as int),
    {
        self.matrix[i][j]
    }

    /// A new tableau with rows and columns swapped.
    pub fn transpose(&self) -> (r: Tableau)
        requires
            self.wf(),
        ensures
            r.wf(),
            is_transpose_of(r, *self),
    {
        let mut matrix: Vec<Vec<Rational>> = Vec::new();
        let mut i: usize = 0;
        while i < self.n
            invariant
                self.wf(),
                i <= self.n,
                matrix@.len() == i,
                forall|a: int| 0 <= a < i ==> (#[trigger] matrix@[a])@.len() == self.m,
                forall|a: int, b: int|
                    0 <= a < i && 0 <= b < self.m ==> #[trigger] matrix@[a]@[b] == self.cell(b, a),
            decreases self.n - i,
        {
            let mut row: Vec<Rational> = Vec::new();
            let mut j: usize = 0;
            while j < self.m
                invariant
                    self.wf(),
                    i < self.n,
                    j <= self.m,
                    row@.len() == j,
                    forall|b: int| 0 <= b < j ==> #[trigger] row@[b] == self.cell(b, i as int),
                decreases self.m - j,
            {
                row.push(self.matrix[j][i]);
                j += 1;
            }
            matrix.push(row);
            i += 1;
        }
        Tableau { m: self.n, n: self.m, matrix }
    }

    /// Negates every entry of the objective row but the right-hand side.
    pub fn negate(&mut self)
        requires
            old(self).wf(),
            old(self).m >= 1,
            old(self).n >= 1,
        ensures
            final(self).wf(),
            final(self).m == old(self).m,
            final(self).n == old(self).n,
            forall|i: int, j: int|
                0 <= i < old(self).obj() && 0 <= j < old(self).n ==> #[trigger] final(self).cell(i, j)
                    == old(self).cell(i, j),
            forall|j: int|
                0 <= j < old(self).rhs() ==> #[trigger] final(self).cell(old(self).obj(), j)
                    == old(self).cell(old(self).obj(), j).spec_neg(),
            final(self).cell(old(self).obj(), old(self).rhs()) == old(self).cell(
                old(self).obj(),
                old(self).rhs(),
            ),
    {
        let ghost before = *self;
        let last = self.m - 1;
        let mut row: Vec<Rational> = Vec::new();
        let mut j: usize = 0;
        while j < self.n
            invariant
                *self == before,
                self.wf(),
                self.m >= 1,
                last == self.m - 1,
                j <= self.n,
                row@.len() == j,
                forall|b: int|
                    0 <= b < j ==> #[trigger] row@[b] == if b < self.n - 1 {
                        self.cell(last as int, b).spec_neg()
                    } else {
                        self.cell(last as int, b)
                    },
            decreases self.n - j,
        {
            let x = self.matrix[last][j];
            assert(x == self.cell(last as int, j as int));
            if j < self.n - 1 {
                row.push(x.neg());
            } else {
                row.push(x);
            }
            j += 1;
        }
        self.matrix.pop();
        self.matrix.push(row);
        proof {
            assert(self.matrix@ == before.matrix@.drop_last().push(row));
            assert forall|i: int, j: int| 0 <= i < self.m && 0 <= j < self.n implies (
            #[trigger] self.cell(i, j)).wf() by {
                if i == last {
                    assert(before.cell(i, j).wf());
                } else {
                    assert(self.cell(i, j) == before.cell(i, j));
                }
            }
        }
    }

    /// Inserts an `m`-by-`m` identity block before the right-hand-side column
    /// and sets the objective row's right-hand side to zero.
    pub fn add_slack_variables(&mut self)
        requires
            old(self).wf(),
            old(self).m >= 1,
            old(self).n >= 1,
            old(self).n + old(self).m <= usize::MAX,
        ensures
            final(self).wf(),
            final(self).m == old(self).m,
            final(self).n == old(self).n + old(self).m,
            forall|i: int, j: int|
                0 <= i < old(self).m && 0 <= j < old(self).rhs() ==> #[trigger] final(self).cell(i, j)
                    == old(self).cell(i, j),
            forall|i: int, k: int|
                0 <= i < old(self).m && 0 <= k < old(self).m ==> #[trigger] final(self).cell(
                    i,
                    old(self).rhs() + k,
                ) == if i == k {
                    one_value()
                } else {
                    zero_value()
                },
            forall|i: int|
                0 <= i < old(self).obj() ==> #[trigger] final(self).cell(i, final(self).rhs())
                    == old(self).cell(i, old(self).rhs()),
            final(self).cell(final(self).obj(), final(self).rhs()) == zero_value(),
    {
        let m = self.m;
        let n = self.n;
        let mut matrix: Vec<Vec<Rational>> = Vec::new();
        let mut i: usize = 0;
        while i < m
            invariant
                self.wf(),
                m == self.m,
                n == self.n,
                m >= 1,
                n >= 1,
                n + m <= usize::MAX,
                i <= m,
                matrix@.len() == i,
                forall|a: int| 0 <= a < i ==> (#[trigger] matrix@[a])@.len() == n + m,
                forall|a: int, b: int|
                    0 <= a < i && 0 <= b < n + m ==> #[trigger] matrix@[a]@[b] == if b < n - 1 {
                        self.cell(a, b)
                    } else if b < n - 1 + m {
                        if a == b - (n - 1) {
                            one_value()
                        } else {
                            zero_value()
                        }
                    } else if a == m - 1 {
                        zero_value()
                    } else {
                        self.cell(a, n - 1)
                    },
            decreases m - i,
        {
            let mut row: Vec<Rational> = Vec::new();
            let mut j: usize = 0;
            while j < n - 1
                invariant
                    self.wf(),
                    m == self.m,
                    n == self.n,
                    i < m,
                    n >= 1,
                    j <= n - 1,
                    row@.len() == j,
                    forall|b: int| 0 <= b < j ==> #[trigger] row@[b] == self.cell(i as int, b),
                decreases n - 1 - j,
            {
                row.push(self.matrix[i][j]);
                j += 1;
            }
            let mut k: usize = 0;
            while k < m
                invariant
                    self.wf(),
                    m == self.m,
                    n == self.n,
                    i < m,
                    n >= 1,
                    n + m <= usize::MAX,
                    k <= m,
                    row@.len() == n - 1 + k,
                    forall|b: int| 0 <= b < n - 1 ==> #[trigger] row@[b] == self.cell(i as int, b),
                    forall|b: int|
                        n - 1 <= b < n - 1 + k ==> #[trigger] row@[b] == if i == b - (n - 1) {
                            one_value()
                        } else {
                            zero_value()
                        },
                decreases m - k,
            {
                if i == k {
                    row.push(Rational::one());
                } else {
                    row.push(Rational::zero());
                }
                k += 1;
            }
            if i == m - 1 {
                row.push(Rational::zero());
            } else {
                row.push(self.matrix[i][n - 1]);
            }
            matrix.push(row);
            i += 1;
        }
        self.n = n + m;
        self.matrix = matrix;
        proof {
            assert forall|i: int, k: int| 0 <= i < m && 0 <= k < m implies #[trigger] self.cell(
                i,
                n - 1 + k,
            ) == if i == k {
                one_value()
            } else {
                zero_value()
            } by {
                assert(self.cell(i, n - 1 + k) == matrix@[i]@[n - 1 + k]);
            }
            assert forall|i: int| 0 <= i < m - 1 implies #[trigger] self.cell(i, n + m - 1)
                == matrix@[i]@[n + m - 1] by {}
        }
    }
}

/// Transposing twice gives back the tableau one started from.
pub proof fn lemma_transpose_involution(t: Tableau, u: Tableau, v: Tableau)
    requires
        t.wf(),
        is_transpose_of(u, t),
        is_transpose_of(v, u),
    ensures
        v.same_grid(t),
{
    assert forall|i: int, j: int| 0 <= i < t.m && 0 <= j < t.n implies #[trigger] v.cell(i, j) == t.cell(i, j) by {
        assert(v.cell(i, j) == u.cell(j, i));
    }
}

} // verus!
