//! Small integer matrices stored row by row: the chunks cut out of an exemplar
//! image, with cropping and quarter turns.

use vstd::prelude::*;

verus! {

/// Columns `x .. x + w` of each of rows `y .. y + h`, each range cut short at
/// the matrix's edge.
pub open spec fn crop(m: Seq<Seq<u32>>, x: int, y: int, w: int, h: int) -> Seq<Seq<u32>> {
    let y2 = if y + h < m.len() { y + h } else { m.len() as int };
    Seq::new(
        (y2 - y) as nat,
        |r: int|
            {
                let row = m[y + r];
                let x2 = if x + w < row.len() { x + w } else { row.len() as int };
                row.subrange(x, x2)
            },
    )
}

/// The square `m` turned a quarter: entry `(j, side - 1 - i)` of the result is
/// entry `(i, j)` of `m`.
pub open spec fn quarter_turn(m: Seq<Seq<u32>>) -> Seq<Seq<u32>> {
    let side = m.len();
    Seq::new(side, |r: int| Seq::new(side, |c: int| m[side - 1 - c][r]))
}

/// Every row has `cols` entries.
pub open spec fn rows_of(m: Seq<Seq<u32>>, cols: nat) -> bool {
    forall|r: int| 0 <= r < m.len() ==> #[trigger] m[r].len() == cols
}

/// A matrix as a vector of equally long rows.
#[derive(Debug, PartialEq, Eq, Hash)]
pub struct Matrix {
    pub data: Vec<Vec<u32>>,
}

impl View for Matrix {
    type V = Seq<Seq<u32>>;

    open spec fn view(&self) -> Seq<Seq<u32>> {
        Seq::new(self.data@.len(), |r: int| self.data@[r]@)
    }
}

fn copy_range(row: &[u32], from: usize, to: usize) -> (r: Vec<u32>)
    requires
        from <= to <= row@.len(),
    ensures
        r@ == row@.subrange(from as int, to as int),
{
    let mut out: Vec<u32> = Vec::new();
    let mut i = from;
    while i < to
        invariant
            from <= i <= to,
            to <= row@.len(),
            out@ == row@.subrange(from as int, i as int),
        decreases to - i,
    {
        out.push(row[i]);
        i = i + 1;
        assert(out@ =~= row@.subrange(from as int, i as int));
    }
    out
}

impl Matrix {
    /// A `rows` by `cols` matrix from its entries listed row by row.
    pub fn from_row_slice(rows: usize, cols: usize, entries: &[u32]) -> (r: Matrix)
        requires
            entries@.len() == rows * cols,
        ensures
            r@.len() == rows,
            rows_of(r@, cols as nat),
            forall|i: int, j: int| 0 <= i < rows && 0 <= j < cols ==> #[trigger] r@[i][j] == entries@[i * cols + j],
    {
        let total = entries.len();
        let mut data: Vec<Vec<u32>> = Vec::new();
        let mut i: usize = 0;
        while i < rows
            invariant
                total == entries@.len(),
                i <= rows,
                entries@.len() == rows * cols,
                data@.len() == i,
                forall|k: int| 0 <= k < i ==> #[trigger] data@[k]@.len() == cols,
                forall|k: int, j: int| 0 <= k < i && 0 <= j < cols ==> #[trigger] data@[k]@[j] == entries@[k * cols + j],
            decreases rows - i,
        {
            assert(i * cols + cols <= rows * cols) by (nonlinear_arith)
                requires
                    i < rows,
            ;
            let row = copy_range(entries, i * cols, i * cols + cols);
            data.push(row);
            i = i + 1;
        }
        Matrix { data }
    }

    /// A copy of this matrix.
    pub fn copy(&self) -> (r: Matrix)
        ensures
            r@ == self@,
    {
        let mut data: Vec<Vec<u32>> = Vec::new();
        let mut i: usize = 0;
        while i < self.data.len()
            invariant
                i <= self@.len(),
                data@.len() == i,
                forall|k: int| 0 <= k < i ==> #[trigger] data@[k]@ == self@[k],
            decreases self@.len() - i,
        {
            data.push(copy_range(self.data[i].as_slice(), 0, self.data[i].len()));
            assert(self.data@[i as int]@.subrange(0, self.data@[i as int]@.len() as int) =~= self@[i as int]);
            i = i + 1;
        }
        let r = Matrix { data };
        assert(r@ =~= self@);
        r
    }

    /// Whether both matrices hold the same rows.
    pub fn same(&self, other: &Matrix) -> (r: bool)
        ensures
            r == (self@ == other@),
    {
        if self.data.len() != other.data.len() {
            return false;
        }
        let mut i: usize = 0;
        while i < self.data.len()
            invariant
                i <= self@.len(),
                self@.len() == other@.len(),
                forall|k: int| 0 <= k < i ==> #[trigger] self@[k] == other@[k],
            decreases self@.len() - i,
        {
            let a = &self.data[i];
            let b = &other.data[i];
            if a.len() != b.len() {
                assert(self@[i as int].len() != other@[i as int].len());
                return false;
            }
            let mut j: usize = 0;
            while j < a.len()
                invariant
                    i < self@.len(),
                    self@.len() == other@.len(),
                    a@ == self@[i as int],
                    b@ == other@[i as int],
                    j <= a@.len(),
                    a@.len() == b@.len(),
                    forall|k: int| 0 <= k < j ==> a@[k] == b@[k],
                decreases a@.len() - j,
            {
                if a[j] != b[j] {
                    assert(self@[i as int][j as int] != other@[i as int][j as int]);
                    return false;
                }
                j = j + 1;
            }
            assert(a@ =~= b@);
            assert(self@[i as int] == other@[i as int]);
            i = i + 1;
        }
        assert(self@ =~= other@);
        true
    }

    /// The part of the matrix at column `position.0`, row `position.1`, of
    /// `size.0` columns and `size.1` rows, cut short at the edges.
    pub fn window(&self, position: (usize, usize), size: (usize, usize)) -> (r: Matrix)
        requires
            position.1 <= self@.len(),
            forall|i: int| 0 <= i < self@.len() ==> position.0 <= #[trigger] self@[i].len(),
        ensures
            r@ == crop(self@, position.0 as int, position.1 as int, size.0 as int, size.1 as int),
    {
        let (x, y) = position;
        let (w, h) = size;
        let y2 = if h < self.data.len() - y { y + h } else { self.data.len() };
        let mut data: Vec<Vec<u32>> = Vec::new();
        let mut i = y;
        while i < y2
            invariant
                y <= i <= y2,
                y2 <= self@.len(),
                y2 == if y + h < self@.len() { y + h } else { self@.len() as int },
                forall|k: int| 0 <= k < self@.len() ==> x <= #[trigger] self@[k].len(),
                data@.len() == i - y,
                forall|k: int| 0 <= k < i - y ==> #[trigger] data@[k]@ == crop(self@, x as int, y as int, w as int, h as int)[k],
            decreases y2 - i,
        {
            let row = &self.data[i];
            assert(row@ == self@[i as int]);
            let x2 = if w < row.len() - x { x + w } else { row.len() };
            data.push(copy_range(row.as_slice(), x, x2));
            i = i + 1;
        }
        let r = Matrix { data };
        assert(r@ =~= crop(self@, x as int, y as int, w as int, h as int));
        r
    }
}

/// Each row with its first `offset` entries removed (all of them when the row
/// is shorter).
pub open spec fn drop_columns(m: Seq<Seq<u32>>, offset: int) -> Seq<Seq<u32>> {
    Seq::new(m.len(), |r: int| if offset < m[r].len() { m[r].subrange(offset, m[r].len() as int) } else { Seq::empty() })
}

/// Each row cut to its first `offset` entries (kept whole when shorter).
pub open spec fn keep_columns(m: Seq<Seq<u32>>, offset: int) -> Seq<Seq<u32>> {
    Seq::new(m.len(), |r: int| if offset < m[r].len() { m[r].subrange(0, offset) } else { m[r] })
}

/// Cropping a matrix on each side.
pub trait SubMatrix: Sized {
    /// Without its first `offset` columns.
    fn crop_left(self, offset: usize) -> Self;

    /// With its first `offset` columns only.
    fn crop_right(self, offset: usize) -> Self;

    /// Without its first `offset` rows.
    fn crop_top(self, offset: usize) -> Self;

    /// With its first `offset` rows only.
    fn crop_bottom(self, offset: usize) -> Self;

    /// The part at column `position.0`, row `position.1`, of `size.0` columns
    /// and `size.1` rows, cut short at the edges.
    fn sub_matrix(&self, position: (usize, usize), size: (usize, usize)) -> Self;
}

impl SubMatrix for Matrix {
    fn crop_left(self, offset: usize) -> (r: Matrix)
        ensures
            r@ == drop_columns(self@, offset as int),
    {
        let mut data: Vec<Vec<u32>> = Vec::new();
        let mut i: usize = 0;
        while i < self.data.len()
            invariant
                i <= self@.len(),
                data@.len() == i,
                forall|k: int| 0 <= k < i ==> #[trigger] data@[k]@ == drop_columns(self@, offset as int)[k],
            decreases self@.len() - i,
        {
            let row = &self.data[i];
            assert(row@ == self@[i as int]);
            if offset < row.len() {
                data.push(copy_range(row.as_slice(), offset, row.len()));
            } else {
                data.push(Vec::new());
                assert(data@[i as int]@ =~= drop_columns(self@, offset as int)[i as int]);
            }
            i = i + 1;
        }
        let r = Matrix { data };
        assert(r@ =~= drop_columns(self@, offset as int));
        r
    }

    fn crop_right(self, offset: usize) -> (r: Matrix)
        ensures
            r@ == keep_columns(self@, offset as int),
    {
        let mut data: Vec<Vec<u32>> = Vec::new();
        let mut i: usize = 0;
        while i < self.data.len()
            invariant
                i <= self@.len(),
                data@.len() == i,
                forall|k: int| 0 <= k < i ==> #[trigger] data@[k]@ == keep_columns(self@, offset as int)[k],
            decreases self@.len() - i,
        {
            let row = &self.data[i];
            assert(row@ == self@[i as int]);
            if offset < row.len() {
                data.push(copy_range(row.as_slice(), 0, offset));
            } else {
                data.push(copy_range(row.as_slice(), 0, row.len()));
                assert(row@.subrange(0, row@.len() as int) =~= row@);
            }
            i = i + 1;
        }
        let r = Matrix { data };
        assert(r@ =~= keep_columns(self@, offset as int));
        r
    }

    fn crop_top(self, offset: usize) -> (r: Matrix)
        ensures
            r@ == if offset < self@.len() { self@.subrange(offset as int, self@.len() as int) } else { Seq::empty() },
    {
        let n = self.data.len();
        let start = if offset < n { offset } else { n };
        let mut data: Vec<Vec<u32>> = Vec::new();
        let mut i = start;
        while i < n
            invariant
                start <= i <= n,
                n == self@.len(),
                data@.len() == i - start,
                forall|k: int| 0 <= k < i - start ==> #[trigger] data@[k]@ == self@[start + k],
            decreases n - i,
        {
            data.push(copy_range(self.data[i].as_slice(), 0, self.data[i].len()));
            assert(self.data@[i as int]@.subrange(0, self.data@[i as int]@.len() as int) =~= self@[i as int]);
            i = i + 1;
        }
        let r = Matrix { data };
        assert(r@ =~= if offset < self@.len() { self@.subrange(offset as int, self@.len() as int) } else { Seq::empty() });
        r
    }

    fn crop_bottom(self, offset: usize) -> (r: Matrix)
        ensures
            r@ == if offset < self@.len() { self@.subrange(0, offset as int) } else { self@ },
    {
        let n = self.data.len();
        let end = if offset < n { offset } else { n };
        let mut data: Vec<Vec<u32>> = Vec::new();
        let mut i: usize = 0;
        while i < end
            invariant
                i <= end <= n,
                n == self@.len(),
                data@.len() == i,
                forall|k: int| 0 <= k < i ==> #[trigger] data@[k]@ == self@[k],
            decreases end - i,
        {
            data.push(copy_range(self.data[i].as_slice(), 0, self.data[i].len()));
            assert(self.data@[i as int]@.subrange(0, self.data@[i as int]@.len() as int) =~= self@[i as int]);
            i = i + 1;
        }
        let r = Matrix { data };
        assert(r@ =~= if offset < self@.len() { self@.subrange(0, offset as int) } else { self@ });
        r
    }

    fn sub_matrix(&self, position: (usize, usize), size: (usize, usize)) -> (r: Matrix)
        ensures
            ({
                let a = drop_columns(self@, position.0 as int);
                let b = keep_columns(a, size.0 as int);
                let c = if position.1 < b.len() { b.subrange(position.1 as int, b.len() as int) } else { Seq::empty() };
                r@ == if size.1 < c.len() { c.subrange(0, size.1 as int) } else { c }
            }),
    {
        let copy = self.copy();
        copy.crop_left(position.0).crop_right(size.0).crop_top(position.1).crop_bottom(size.1)
    }
}

/// Quarter turns of square matrices.
pub trait Rotation {
    /// The matrix turned a quarter.
    fn rotate_90(&self) -> Matrix;
}

impl Rotation for Matrix {
    fn rotate_90(&self) -> (r: Matrix)
        ensures
            rows_of(self@, self@.len()) ==> r@ == quarter_turn(self@),
    {
        let side = self.data.len();
        let mut data: Vec<Vec<u32>> = Vec::new();
        let mut r: usize = 0;
        while r < side
            invariant
                side == self@.len(),
                r <= side,
                data@.len() == r,
                forall|k: int| 0 <= k < r ==> rows_of(self@, side as nat) ==> #[trigger] data@[k]@ == quarter_turn(self@)[k],
            decreases side - r,
        {
            let mut row: Vec<u32> = Vec::new();
            let mut c: usize = 0;
            let ok = self.square_rows();
            while c < side
                invariant
                    side == self@.len(),
                    r < side,
                    c <= side,
                    row@.len() == c,
                    ok == rows_of(self@, side as nat),
                    ok ==> forall|k: int| 0 <= k < c ==> #[trigger] row@[k] == self@[side - 1 - k][r as int],
                decreases side - c,
            {
                let src = &self.data[side - 1 - c];
                if r < src.len() {
                    row.push(src[r]);
                } else {
                    row.push(0);
                }
                c = c + 1;
            }
            assert(ok ==> row@ =~= quarter_turn(self@)[r as int]);
            data.push(row);
            r = r + 1;
        }
        let m = Matrix { data };
        assert(rows_of(self@, side as nat) ==> m@ =~= quarter_turn(self@));
        m
    }
}

impl Matrix {
    /// Whether every row is as long as the matrix is high.
    pub fn square_rows(&self) -> (r: bool)
        ensures
            r == rows_of(self@, self@.len()),
    {
        let side = self.data.len();
        let mut i: usize = 0;
        while i < side
            invariant
                side == self@.len(),
                i <= side,
                forall|k: int| 0 <= k < i ==> #[trigger] self@[k].len() == side,
            decreases side - i,
        {
            if self.data[i].len() != side {
                assert(self@[i as int].len() != side);
                return false;
            }
            i = i + 1;
        }
        true
    }
}

} // verus!
