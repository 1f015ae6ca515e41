use vstd::prelude::*;

verus! {

/// A fixed-size dense grid of `rows * cols` values, stored column by column.
#[derive(Clone, PartialEq, Eq, Debug)]
pub struct Grid<T> {
    rows: usize,
    cols: usize,
    grid: Vec<T>,
}

/// Slot of the backing store that holds coordinate `(row, col)` of a grid with `rows` rows.
pub open spec fn slot(rows: int, row: int, col: int) -> int {
    col * rows + row
}

proof fn lemma_slot_in_range(rows: int, cols: int, row: int, col: int)
    requires
        0 <= row < rows,
        0 <= col < cols,
    ensures
        0 <= slot(rows, row, col) < rows * cols,
{
    assert(0 <= col * rows + row < rows * cols) by (nonlinear_arith)
        requires
            0 <= row < rows,
            0 <= col < cols,
    ;
}

proof fn lemma_slot_injective(rows: int, r1: int, c1: int, r2: int, c2: int)
    requires
        0 <= r1 < rows,
        0 <= r2 < rows,
        0 <= c1,
        0 <= c2,
        slot(rows, r1, c1) == slot(rows, r2, c2),
    ensures
        r1 == r2 && c1 == c2,
{
    if c1 < c2 {
        assert(c1 * rows + rows <= c2 * rows) by (nonlinear_arith)
            requires
                c1 < c2,
                0 <= rows,
        ;
    } else if c2 < c1 {
        assert(c2 * rows + rows <= c1 * rows) by (nonlinear_arith)
            requires
                c2 < c1,
                0 <= rows,
        ;
    }
}

/// The `k`-th of the nine coordinates around `(row, col)`, taken row by row from
/// `(row - 1, col - 1)` to `(row + 1, col + 1)`.
pub open spec fn candidate(row: int, col: int, k: int) -> (int, int) {
    (row - 1 + k / 3, col - 1 + k % 3)
}

/// Position of `(r, c)` among the nine coordinates around `(row, col)`.
pub open spec fn offset(row: int, col: int, r: int, c: int) -> int {
    (r - row + 1) * 3 + (c - col + 1)
}

/// `(r, c)` lies inside a `rows` by `cols` grid, within one step of `(row, col)`
/// in each direction, and is not `(row, col)` itself.
pub open spec fn is_neighbour(rows: int, cols: int, row: int, col: int, r: int, c: int) -> bool {
    &&& 0 <= r < rows
    &&& 0 <= c < cols
    &&& row - 1 <= r <= row + 1
    &&& col - 1 <= c <= col + 1
    &&& (r != row || c != col)
}

/// The neighbours of `(row, col)` among the first `k` candidates, in candidate order.
pub open spec fn neighbour_prefix(rows: int, cols: int, row: int, col: int, k: nat) -> Seq<(usize, usize)>
    decreases k,
{
    if k == 0 {
        Seq::empty()
    } else {
        let p = candidate(row, col, k - 1);
        let rest = neighbour_prefix(rows, cols, row, col, (k - 1) as nat);
        if is_neighbour(rows, cols, row, col, p.0, p.1) {
            rest.push((p.0 as usize, p.1 as usize))
        } else {
            rest
        }
    }
}

/// The neighbours of `(row, col)` in a `rows` by `cols` grid, row by row.
pub open spec fn neighbour_seq(rows: int, cols: int, row: int, col: int) -> Seq<(usize, usize)> {
    neighbour_prefix(rows, cols, row, col, 9)
}

/// How many of the rows (or columns) `x - 1`, `x`, `x + 1` lie in `[0, n)`, for `x` in `[0, n)`.
pub open spec fn span(x: int, n: int) -> int {
    1 + (if x > 0 { 1int } else { 0int }) + (if x + 1 < n { 1int } else { 0int })
}

proof fn lemma_neighbour_prefix(rows: int, cols: int, row: int, col: int, k: nat)
    requires
        k <= 9,
        0 <= row < rows <= usize::MAX,
        0 <= col < cols <= usize::MAX,
    ensures
        forall|i: int| #![trigger neighbour_prefix(rows, cols, row, col, k)[i]]
            0 <= i < neighbour_prefix(rows, cols, row, col, k).len() ==> {
                let p = neighbour_prefix(rows, cols, row, col, k)[i];
                &&& is_neighbour(rows, cols, row, col, p.0 as int, p.1 as int)
                &&& offset(row, col, p.0 as int, p.1 as int) < k
            },
        forall|i: int, j: int|
            0 <= i < j < neighbour_prefix(rows, cols, row, col, k).len() ==> {
                let p = #[trigger] neighbour_prefix(rows, cols, row, col, k)[i];
                let q = #[trigger] neighbour_prefix(rows, cols, row, col, k)[j];
                offset(row, col, p.0 as int, p.1 as int) < offset(row, col, q.0 as int, q.1 as int)
            },
        forall|r: usize, c: usize|
            is_neighbour(rows, cols, row, col, r as int, c as int) && offset(row, col, r as int, c as int) < k
                ==> #[trigger] neighbour_prefix(rows, cols, row, col, k).contains((r, c)),
    decreases k,
{
    if k > 0 {
        let km = (k - 1) as nat;
        lemma_neighbour_prefix(rows, cols, row, col, km);
        let rest = neighbour_prefix(rows, cols, row, col, km);
        let s = neighbour_prefix(rows, cols, row, col, k);
        let p = candidate(row, col, km as int);
        assert(offset(row, col, p.0, p.1) == km);
        assert forall|r: usize, c: usize|
            is_neighbour(rows, cols, row, col, r as int, c as int) && offset(row, col, r as int, c as int) < k
                implies #[trigger] s.contains((r, c)) by {
            if offset(row, col, r as int, c as int) < km {
                assert(rest.contains((r, c)));
                let i = choose|i: int| 0 <= i < rest.len() && rest[i] == (r, c);
                assert(s[i] == rest[i]);
            } else {
                assert(p == (r as int, c as int));
                assert(s[s.len() - 1] == (r, c));
            }
        }
    }
}

/// Every coordinate in the neighbour sequence lies inside the grid.
pub proof fn lemma_neighbour_bounds(rows: int, cols: int, row: int, col: int)
    requires
        0 <= row < rows <= usize::MAX,
        0 <= col < cols <= usize::MAX,
    ensures
        forall|i: int| #![trigger neighbour_seq(rows, cols, row, col)[i]]
            0 <= i < neighbour_seq(rows, cols, row, col).len() ==> {
                let p = neighbour_seq(rows, cols, row, col)[i];
                is_neighbour(rows, cols, row, col, p.0 as int, p.1 as int)
            },
{
    lemma_neighbour_prefix(rows, cols, row, col, 9);
}

/// Neighbour counts by position: eight inside, five along an edge, three in a corner.
pub proof fn lemma_neighbour_counts(rows: int, cols: int, row: int, col: int)
    requires
        0 <= row < rows,
        0 <= col < cols,
    ensures
        neighbour_seq(rows, cols, row, col).len() == span(row, rows) * span(col, cols) - 1,
        0 < row < rows - 1 && 0 < col < cols - 1 ==> neighbour_seq(rows, cols, row, col).len() == 8,
        rows >= 2 && cols >= 2 && (row == 0 || row == rows - 1) && (col == 0 || col == cols - 1)
            ==> neighbour_seq(rows, cols, row, col).len() == 3,
        rows >= 2 && cols >= 2 && (row == 0 || row == rows - 1) && 0 < col < cols - 1
            ==> neighbour_seq(rows, cols, row, col).len() == 5,
        rows >= 2 && cols >= 2 && 0 < row < rows - 1 && (col == 0 || col == cols - 1)
            ==> neighbour_seq(rows, cols, row, col).len() == 5,
{
    reveal_with_fuel(neighbour_prefix, 10);
    let len = neighbour_seq(rows, cols, row, col).len() as int;
    let a = span(row, rows);
    let b = span(col, cols);
    let k: int = if row > 0 && row + 1 < rows {
        3
    } else if row > 0 || row + 1 < rows {
        2
    } else {
        1
    };
    assert(a == k);
    assert(len == k * b - 1);
    assert(len == a * b - 1) by (nonlinear_arith)
        requires
            len == k * b - 1,
            a == k,
    ;
}

impl<T> Grid<T> {
    /// Number of rows.
    pub closed spec fn num_rows(&self) -> int {
        self.rows as int
    }

    /// Number of columns.
    pub closed spec fn num_cols(&self) -> int {
        self.cols as int
    }

    /// The backing store, column by column.
    pub closed spec fn cells(&self) -> Seq<T> {
        self.grid@
    }

    /// The backing store holds exactly one value per coordinate.
    pub open spec fn wf(&self) -> bool {
        &&& self.cells().len() == self.num_rows() * self.num_cols()
        &&& self.num_rows() * self.num_cols() <= usize::MAX
    }

    /// `(row, col)` is a coordinate of the grid.
    pub open spec fn in_bounds(&self, row: int, col: int) -> bool {
        0 <= row < self.num_rows() && 0 <= col < self.num_cols()
    }

    /// The value at coordinate `(row, col)`.
    pub open spec fn at(&self, row: int, col: int) -> T {
        self.cells()[slot(self.num_rows(), row, col)]
    }

    /// Same dimensions and the same value at every coordinate.
    pub open spec fn same_values(&self, other: &Grid<T>) -> bool {
        &&& self.num_rows() == other.num_rows()
        &&& self.num_cols() == other.num_cols()
        &&& forall|r: int, c: int| #[trigger]
            self.in_bounds(r, c) ==> self.at(r, c) == other.at(r, c)
    }

    /// The dimensions fit in `usize`.
    pub proof fn lemma_dims_fit(&self)
        ensures
            self.num_rows() <= usize::MAX,
            self.num_cols() <= usize::MAX,
            0 <= self.num_rows(),
            0 <= self.num_cols(),
    {
    }
}

/// A value that `T::default()` may return.
pub open spec fn is_default<T: Default>(v: T) -> bool {
    call_ensures(T::default, (), v)
}

impl<T: Clone + Default> Grid<T> {
    /// A `rows` by `cols` grid with the default value at every coordinate.
    pub fn new(rows: usize, cols: usize) -> (g: Self)
        requires
            rows * cols <= usize::MAX,
        ensures
            g.wf(),
            g.num_rows() == rows,
            g.num_cols() == cols,
            forall|r: int, c: int| g.in_bounds(r, c) ==> is_default(#[trigger] g.at(r, c)),
    {
        let n: usize = rows * cols;
        let mut grid: Vec<T> = Vec::new();
        let mut i: usize = 0;
        while i < n
            invariant
                i <= n,
                grid@.len() == i,
                forall|j: int| 0 <= j < i ==> is_default(#[trigger] grid@[j]),
            decreases n - i,
        {
            grid.push(T::default());
            i += 1;
        }
        let g = Grid { rows, cols, grid };
        assert forall|r: int, c: int| g.in_bounds(r, c) implies is_default(#[trigger] g.at(r, c)) by {
            lemma_slot_in_range(rows as int, cols as int, r, c);
        }
        g
    }

    /// A `rows` by `cols` grid holding a copy of `values`, read column by column:
    /// the value at `(row, col)` is `values[col * rows + row]`.
    pub fn from_slice(values: &[T], rows: usize, cols: usize) -> (g: Self)
        requires
            values@.len() == rows * cols,
        ensures
            g.wf(),
            g.num_rows() == rows,
            g.num_cols() == cols,
            forall|r: int, c: int| #[trigger]
                g.in_bounds(r, c) ==> cloned(values@[slot(rows as int, r, c)], g.at(r, c)),
    {
        let n: usize = values.len();
        let mut grid: Vec<T> = Vec::new();
        let mut i: usize = 0;
        while i < n
            invariant
                n == values@.len(),
                i <= n,
                grid@.len() == i,
                forall|j: int| 0 <= j < i ==> cloned(values@[j], #[trigger] grid@[j]),
            decreases n - i,
        {
            grid.push(values[i].clone());
            i += 1;
        }
        let g = Grid { rows, cols, grid };
        assert forall|r: int, c: int| #[trigger]
            g.in_bounds(r, c) implies cloned(values@[slot(rows as int, r, c)], g.at(r, c)) by {
            lemma_slot_in_range(rows as int, cols as int, r, c);
        }
        g
    }

    /// The coordinates within one step of `(row, col)`, diagonals included, that lie
    /// inside the grid, without `(row, col)` itself; row by row, each row left to right.
    /// Edges clamp: nothing wraps around.
    pub fn neighbours(&self, row: usize, col: usize) -> (r: Vec<(usize, usize)>)
        requires
            self.in_bounds(row as int, col as int),
        ensures
            r@ == neighbour_seq(self.num_rows(), self.num_cols(), row as int, col as int),
            forall|i: int| #![trigger r@[i]]
                0 <= i < r@.len() ==> is_neighbour(
                    self.num_rows(),
                    self.num_cols(),
                    row as int,
                    col as int,
                    r@[i].0 as int,
                    r@[i].1 as int,
                ),
            forall|nr: usize, nc: usize|
                is_neighbour(self.num_rows(), self.num_cols(), row as int, col as int, nr as int, nc as int)
                    <==> #[trigger] r@.contains((nr, nc)),
            r@.no_duplicates(),
            r@.len() == span(row as int, self.num_rows()) * span(col as int, self.num_cols()) - 1,
    {
        let ghost (rows, cols) = (self.num_rows(), self.num_cols());
        let mut out: Vec<(usize, usize)> = Vec::new();
        let mut dr: usize = 0;
        while dr < 3
            invariant
                dr <= 3,
                rows == self.num_rows(),
                cols == self.num_cols(),
                self.in_bounds(row as int, col as int),
                out@ == neighbour_prefix(rows, cols, row as int, col as int, (3 * dr) as nat),
            decreases 3 - dr,
        {
            let row_ok = if dr == 0 {
                row > 0
            } else if dr == 1 {
                true
            } else {
                row + 1 < self.rows
            };
            let mut dc: usize = 0;
            while dc < 3
                invariant
                    dr < 3,
                    dc <= 3,
                    rows == self.num_rows(),
                    cols == self.num_cols(),
                    self.in_bounds(row as int, col as int),
                    row_ok == (0 <= row - 1 + dr < rows),
                    out@ == neighbour_prefix(rows, cols, row as int, col as int, (3 * dr + dc) as nat),
                decreases 3 - dc,
            {
                let col_ok = if dc == 0 {
                    col > 0
                } else if dc == 1 {
                    true
                } else {
                    col + 1 < self.cols
                };
                let k: usize = 3 * dr + dc;
                assert(candidate(row as int, col as int, k as int) == (row - 1 + dr, col - 1 + dc));
                if row_ok && col_ok && (dr != 1 || dc != 1) {
                    out.push((row + dr - 1, col + dc - 1));
                }
                dc += 1;
            }
            dr += 1;
        }
        proof {
            lemma_neighbour_prefix(rows, cols, row as int, col as int, 9);
            lemma_neighbour_counts(rows, cols, row as int, col as int);
            let s = out@;
            assert forall|nr: usize, nc: usize| #[trigger] s.contains((nr, nc))
                implies is_neighbour(rows, cols, row as int, col as int, nr as int, nc as int) by {
                let i = choose|i: int| 0 <= i < s.len() && s[i] == (nr, nc);
                assert(s[i] == (nr, nc));
            }
            assert forall|nr: usize, nc: usize|
                is_neighbour(rows, cols, row as int, col as int, nr as int, nc as int)
                implies #[trigger] s.contains((nr, nc)) by {
            }
            assert forall|i: int, j: int| 0 <= i < s.len() && 0 <= j < s.len() && i != j
                implies s[i] != s[j] by {
                if i < j {
                    assert(s[i] != s[j]);
                } else {
                    assert(s[j] != s[i]);
                }
            }
        }
        out
    }

    /// The dimensions, as `(rows, cols)`.
    pub fn size(&self) -> (r: (usize, usize))
        ensures
            r.0 == self.num_rows(),
            r.1 == self.num_cols(),
    {
        (self.rows, self.cols)
    }

    /// The value at `(row, col)`.
    pub fn get(&self, row: usize, col: usize) -> (r: &T)
        requires
            self.wf(),
            self.in_bounds(row as int, col as int),
        ensures
            *r == self.at(row as int, col as int),
    {
        proof {
            lemma_slot_in_range(self.rows as int, self.cols as int, row as int, col as int);
        }
        &self.grid[col * self.rows + row]
    }

    /// Overwrites the value at `(row, col)` with `value`; every other coordinate keeps its value.
    pub fn set(&mut self, value: T, row: usize, col: usize)
        requires
            old(self).wf(),
            old(self).in_bounds(row as int, col as int),
        ensures
            final(self).wf(),
            final(self).num_rows() == old(self).num_rows(),
            final(self).num_cols() == old(self).num_cols(),
            final(self).at(row as int, col as int) == value,
            forall|r: int, c: int|
                old(self).in_bounds(r, c) && (r != row || c != col) ==> #[trigger] final(self).at(r, c)
                    == old(self).at(r, c),
    {
        proof {
            lemma_slot_in_range(self.rows as int, self.cols as int, row as int, col as int);
        }
        let ghost before = *self;
        self.grid.set(col * self.rows + row, value);
        assert forall|r: int, c: int|
            before.in_bounds(r, c) && (r != row || c != col) implies #[trigger] self.at(r, c) == before.at(r, c) by {
            lemma_slot_in_range(self.rows as int, self.cols as int, r, c);
            if slot(self.rows as int, r, c) == slot(self.rows as int, row as int, col as int) {
                lemma_slot_injective(self.rows as int, r, c, row as int, col as int);
            }
        }
    }
}

} // verus!
