use vstd::prelude::*;

verus! {

/// `0 + 1 + ... + (r - 1)`: where row `r` starts in the flat array.
pub open spec fn tri(r: nat) -> nat
    decreases r,
{
    if r == 0 {
        0
    } else {
        tri((r - 1) as nat) + (r - 1) as nat
    }
}

/// Flat position of the unordered pair `{a, b}`, `a != b`.
pub open spec fn pair_index(a: nat, b: nat) -> nat {
    if a > b {
        tri(a) + b
    } else {
        tri(b) + a
    }
}

pub proof fn lemma_tri(r: nat)
    ensures
        tri(r) * 2 + r == r * r,
        r >= 1 ==> tri(r) == (r * (r - 1) as nat) / 2,
    decreases r,
{
    if r > 0 {
        let p = (r - 1) as nat;
        lemma_tri(p);
        assert(tri(r) == tri(p) + p);
        assert(r == p + 1);
        assert((p + 1) * (p + 1) == p * p + 2 * p + 1) by (nonlinear_arith);
        assert(r * r == p * p + 2 * p + 1);
        assert(tri(r) * 2 + r == r * r);
        assert(r * (r - 1) as nat == r * r - r) by (nonlinear_arith)
            requires
                r >= 1,
        ;
    } else {
        assert(r * r == 0) by (nonlinear_arith)
            requires
                r == 0,
        ;
    }
}

pub proof fn lemma_tri_mono(a: nat, b: nat)
    requires
        a <= b,
    ensures
        tri(a) + a <= tri(b) || a == b,
        tri(a) <= tri(b),
    decreases b - a,
{
    if a < b {
        lemma_tri_mono(a, (b - 1) as nat);
    }
}

/// A pair `r > c` sits inside a matrix of `rows` rows.
pub proof fn lemma_pair_in_range(r: nat, c: nat, rows: nat)
    requires
        c < r < rows,
    ensures
        tri(r) + c < tri(rows),
{
    lemma_tri_mono(r + 1, rows);
}

/// Two different pairs below the diagonal have different flat positions.
pub proof fn lemma_pair_index_injective(r1: nat, c1: nat, r2: nat, c2: nat)
    requires
        c1 < r1,
        c2 < r2,
        tri(r1) + c1 == tri(r2) + c2,
    ensures
        r1 == r2 && c1 == c2,
{
    if r1 < r2 {
        lemma_tri_mono(r1 + 1, r2);
    } else if r2 < r1 {
        lemma_tri_mono(r2 + 1, r1);
    }
}

/// A strictly lower triangle of a square matrix, stored row after row in one vector.
#[derive(Debug)]
pub struct Array2D {
    data: Vec<u64>,
    rows: usize,
}

impl Array2D {
    /// Number of rows (and of columns).
    pub closed spec fn rows(&self) -> nat {
        self.rows as nat
    }

    /// The value stored for the unordered pair `{a, b}`.
    pub closed spec fn at(&self, a: nat, b: nat) -> u64 {
        self.data@[pair_index(a, b) as int]
    }

    /// The flat storage, row after row.
    pub closed spec fn flat(&self) -> Seq<u64> {
        self.data@
    }

    /// The storage holds exactly one cell for each pair.
    pub closed spec fn wf(&self) -> bool {
        &&& self.data@.len() == tri(self.rows as nat)
        &&& self.rows >= 1
        &&& self.rows * (self.rows - 1) <= usize::MAX
    }

    /// `{a, b}` is a pair of this matrix.
    pub open spec fn valid(&self, a: nat, b: nat) -> bool {
        a != b && a < self.rows() && b < self.rows()
    }

    pub proof fn lemma_flat(&self, a: nat, b: nat)
        requires
            self.wf(),
            self.valid(a, b),
        ensures
            pair_index(a, b) < self.flat().len(),
            self.at(a, b) == self.flat()[pair_index(a, b) as int],
            self.at(a, b) == self.at(b, a),
    {
        if a > b {
            lemma_pair_in_range(a, b, self.rows());
        } else {
            lemma_pair_in_range(b, a, self.rows());
        }
    }

    /// A zero matrix with `rows` rows.
    pub fn new(rows: usize) -> (r: Self)
        requires
            rows >= 1,
            rows * (rows - 1) <= usize::MAX,
        ensures
            r.wf(),
            r.rows() == rows,
            forall|a: nat, b: nat| r.valid(a, b) ==> r.at(a, b) == 0,
    {
        proof {
            lemma_tri(rows as nat);
        }
        let n: usize = rows * (rows - 1) / 2;
        let mut data: Vec<u64> = Vec::new();
        let mut i: usize = 0;
        while i < n
            invariant
                0 <= i <= n,
                data@.len() == i,
                forall|k: int| 0 <= k < i ==> data@[k] == 0,
            decreases n - i,
        {
            data.push(0);
            i = i + 1;
        }
        let r = Array2D { data, rows };
        proof {
            assert forall|a: nat, b: nat| r.valid(a, b) implies r.at(a, b) == 0 by {
                r.lemma_flat(a, b);
            }
        }
        r
    }

    /// The flat storage, row after row.
    pub fn as_vec(&self) -> (r: &Vec<u64>)
        ensures
            r@ == self.flat(),
    {
        &self.data
    }

    /// Flat position of the pair `{row, col}`.
    fn get_index(&self, row: usize, col: usize) -> (r: usize)
        requires
            self.wf(),
            self.valid(row as nat, col as nat),
        ensures
            r == pair_index(row as nat, col as nat),
            r < self.flat().len(),
    {
        proof {
            self.lemma_flat(row as nat, col as nat);
        }
        let (row, col) = if row > col {
            (row, col)
        } else {
            (col, row)
        };
        proof {
            lemma_tri(row as nat);
            lemma_tri(self.rows as nat);
            assert(row * (row - 1) <= self.rows * (self.rows - 1)) by (nonlinear_arith)
                requires
                    row < self.rows,
                    row >= 1,
            ;
            lemma_pair_in_range(row as nat, col as nat, self.rows as nat);
            assert(row * (row - 1) / 2 == tri(row as nat));
        }
        row * (row - 1) / 2 + col
    }

    /// The value of the pair `{row, col}`.
    pub fn get(&self, row: usize, col: usize) -> (r: u64)
        requires
            self.wf(),
            self.valid(row as nat, col as nat),
        ensures
            r == self.at(row as nat, col as nat),
    {
        let i = self.get_index(row, col);
        self.data[i]
    }

    /// Stores `value` for the pair `{row, col}`.
    pub fn set(&mut self, row: usize, col: usize, value: u64)
        requires
            old(self).wf(),
            old(self).valid(row as nat, col as nat),
        ensures
            final(self).wf(),
            final(self).rows() == old(self).rows(),
            final(self).at(row as nat, col as nat) == value,
            forall|a: nat, b: nat|
                final(self).valid(a, b) && pair_index(a, b) != pair_index(row as nat, col as nat)
                    ==> final(self).at(a, b) == old(self).at(a, b),
    {
        let i = self.get_index(row, col);
        self.data.set(i, value);
        proof {
            assert forall|a: nat, b: nat|
                final(self).valid(a, b) && pair_index(a, b) != pair_index(row as nat, col as nat)
                    implies final(self).at(a, b) == old(self).at(a, b) by {
                old(self).lemma_flat(a, b);
            }
        }
    }

    /// Adds one to the pair `{row, col}`.
    pub fn increment(&mut self, row: usize, col: usize)
        requires
            old(self).wf(),
            old(self).valid(row as nat, col as nat),
            old(self).at(row as nat, col as nat) < u64::MAX,
        ensures
            final(self).wf(),
            final(self).rows() == old(self).rows(),
            final(self).at(row as nat, col as nat) == old(self).at(row as nat, col as nat) + 1,
            forall|a: nat, b: nat|
                final(self).valid(a, b) && pair_index(a, b) != pair_index(row as nat, col as nat)
                    ==> final(self).at(a, b) == old(self).at(a, b),
    {
        let i = self.get_index(row, col);
        let v = self.data[i];
        self.data.set(i, v + 1);
        proof {
            assert forall|a: nat, b: nat|
                final(self).valid(a, b) && pair_index(a, b) != pair_index(row as nat, col as nat)
                    implies final(self).at(a, b) == old(self).at(a, b) by {
                old(self).lemma_flat(a, b);
            }
        }
    }

    /// Adds `rhs` to this matrix cell by cell.
    pub fn add_assign(&mut self, rhs: &Array2D)
        requires
            old(self).wf(),
            rhs.wf(),
            rhs.rows() == old(self).rows(),
            forall|a: nat, b: nat|
                old(self).valid(a, b) ==> old(self).at(a, b) + rhs.at(a, b) <= u64::MAX,
        ensures
            final(self).wf(),
            final(self).rows() == old(self).rows(),
            forall|a: nat, b: nat|
                final(self).valid(a, b) ==> final(self).at(a, b) == old(self).at(a, b) + rhs.at(
                    a,
                    b,
                ),
    {
        let ghost start = self.data@;
        let n = self.data.len();
        let mut i: usize = 0;
        let mut row: usize = 1;
        let mut col: usize = 0;
        proof {
            lemma_tri(1);
        }
        while i < n
            invariant
                0 <= i <= n,
                n == self.data@.len(),
                n == start.len(),
                n == rhs.data@.len(),
                self.rows == old(self).rows,
                self.data@.len() == tri(self.rows as nat),
                self.rows >= 1,
                self.rows * (self.rows - 1) <= usize::MAX,
                start == old(self).data@,
                rhs.wf(),
                rhs.rows() == old(self).rows(),
                forall|a: nat, b: nat|
                    old(self).valid(a, b) ==> old(self).at(a, b) + rhs.at(a, b) <= u64::MAX,
                col < row,
                i == tri(row as nat) + col,
                i < n ==> row < self.rows,
                forall|k: int| 0 <= k < i ==> self.data@[k] == start[k] + rhs.data@[k],
                forall|k: int| i <= k < n ==> self.data@[k] == start[k],
            decreases n - i,
        {
            assert(old(self).valid(row as nat, col as nat));
            assert(pair_index(row as nat, col as nat) == i);
            assert(old(self).at(row as nat, col as nat) + rhs.at(row as nat, col as nat) <= u64::MAX);
            assert(old(self).at(row as nat, col as nat) == self.data@[i as int]);
            assert(rhs.at(row as nat, col as nat) == rhs.data@[i as int]);
            let v = self.data[i] + rhs.data[i];
            self.data.set(i, v);
            i = i + 1;
            col = col + 1;
            if col >= row {
                col = 0;
                row = row + 1;
                proof {
                    if i < n && row >= self.rows {
                        lemma_tri_mono(self.rows as nat, row as nat);
                    }
                }
            }
        }
        proof {
            assert forall|a: nat, b: nat| self.valid(a, b) implies self.at(a, b) == old(self).at(
                a,
                b,
            ) + rhs.at(a, b) by {
                self.lemma_flat(a, b);
            }
        }
    }

    /// Every pair with its value, ordered by row and then by column:
    /// entry `i` is `(row, col, value)` with `row > col`.
    pub fn iter(&self) -> (r: Vec<(usize, usize, u64)>)
        requires
            self.wf(),
        ensures
            r@.len() == self.flat().len(),
            r@.len() == tri(self.rows()),
            forall|i: int|
                0 <= i < r@.len() ==> {
                    let (row, col, v) = #[trigger] r@[i];
                    &&& col < row < self.rows()
                    &&& tri(row as nat) + col == i
                    &&& v == self.at(row as nat, col as nat)
                },
    {
        let mut out: Vec<(usize, usize, u64)> = Vec::new();
        let mut row: usize = 1;
        let mut col: usize = 0;
        let mut idx: usize = 0;
        let n = self.data.len();
        proof {
            lemma_tri(1);
        }
        while idx < n
            invariant
                self.wf(),
                n == self.data@.len(),
                0 <= idx <= n,
                out@.len() == idx,
                col < row,
                idx == tri(row as nat) + col,
                idx < n ==> row < self.rows,
                forall|i: int|
                    0 <= i < out@.len() ==> {
                        let (rr, cc, v) = #[trigger] out@[i];
                        &&& cc < rr < self.rows()
                        &&& tri(rr as nat) + cc == i
                        &&& v == self.at(rr as nat, cc as nat)
                    },
            decreases n - idx,
        {
            proof {
                self.lemma_flat(row as nat, col as nat);
            }
            out.push((row, col, self.data[idx]));
            idx = idx + 1;
            col = col + 1;
            if col >= row {
                col = 0;
                row = row + 1;
                proof {
                    if idx < n {
                        if row >= self.rows {
                            lemma_tri_mono(self.rows as nat, row as nat);
                        }
                    }
                }
            }
        }
        out
    }
}

/// Hands out the cells of an `Array2D` one at a time, ordered by row and
/// then by column: `(row, col, value)` with `row > col`.
#[derive(Debug)]
pub struct Array2DIterator {
    cells: Vec<(usize, usize, u64)>,
    pos: usize,
}

impl Array2DIterator {
    /// The cells not yet handed out.
    pub closed spec fn rest(&self) -> Seq<(usize, usize, u64)> {
        self.cells@.skip(self.pos as int)
    }

    pub closed spec fn wf(&self) -> bool {
        self.pos <= self.cells@.len()
    }

    /// An iterator over the cells of `data`.
    pub fn new(data: &Array2D) -> (r: Self)
        requires
            data.wf(),
        ensures
            r.wf(),
            r.rest().len() == data.flat().len(),
            forall|i: int|
                0 <= i < r.rest().len() ==> {
                    let (row, col, v) = #[trigger] r.rest()[i];
                    &&& col < row < data.rows()
                    &&& tri(row as nat) + col == i
                    &&& v == data.at(row as nat, col as nat)
                },
    {
        let cells = data.iter();
        let r = Self { cells, pos: 0 };
        assert(r.rest() =~= cells@);
        r
    }

    /// The next cell, or `None` once all have been handed out.
    pub fn next(&mut self) -> (r: Option<(usize, usize, u64)>)
        requires
            old(self).wf(),
        ensures
            final(self).wf(),
            old(self).rest().len() == 0 ==> r.is_none() && final(self).rest() == old(self).rest(),
            old(self).rest().len() > 0 ==> r == Some(old(self).rest()[0]) && final(self).rest() == old(self).rest().drop_first(),
    {
        if self.pos >= self.cells.len() {
            return None;
        }
        let e = self.cells[self.pos];
        let ghost old_rest = self.rest();
        self.pos = self.pos + 1;
        assert(self.rest() =~= old_rest.drop_first());
        Some(e)
    }
}

} // verus!
