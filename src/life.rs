use vstd::prelude::*;

use crate::grid::{neighbour_seq, slot, Grid};

verus! {

/// The state of one cell of the automaton.
#[derive(Clone, Copy, PartialEq, Eq, Structural, Debug)]
pub enum Cell {
    Dead,
    Alive,
}

impl Default for Cell {
    fn default() -> (r: Self)
        ensures
            r == Cell::Dead,
    {
        Cell::Dead
    }
}

/// Number of Alive cells of `g` at the coordinates listed in `s`.
pub open spec fn count_alive(g: Grid<Cell>, s: Seq<(usize, usize)>) -> nat
    decreases s.len(),
{
    if s.len() == 0 {
        0
    } else {
        let p = s.last();
        count_alive(g, s.drop_last()) + if g.at(p.0 as int, p.1 as int) == Cell::Alive {
            1nat
        } else {
            0nat
        }
    }
}

/// Number of Alive cells among the neighbours of `(row, col)` in `g`.
pub open spec fn live_neighbours(g: Grid<Cell>, row: int, col: int) -> nat {
    count_alive(g, neighbour_seq(g.num_rows(), g.num_cols(), row, col))
}

/// The next state of a cell that is `cur` now and has `n` Alive neighbours: a live
/// cell survives with two or three, a dead one comes alive with exactly three.
pub open spec fn next_state(cur: Cell, n: nat) -> Cell {
    match cur {
        Cell::Alive => if n == 2 || n == 3 {
            Cell::Alive
        } else {
            Cell::Dead
        },
        Cell::Dead => if n == 3 {
            Cell::Alive
        } else {
            Cell::Dead
        },
    }
}

/// `next` is the generation that follows `cur`.
pub open spec fn is_successor(next: Grid<Cell>, cur: Grid<Cell>) -> bool {
    &&& next.wf()
    &&& next.num_rows() == cur.num_rows()
    &&& next.num_cols() == cur.num_cols()
    &&& forall|r: int, c: int| #[trigger]
        cur.in_bounds(r, c) ==> next.at(r, c) == next_state(cur.at(r, c), live_neighbours(cur, r, c))
}

proof fn lemma_count_prefix(g: Grid<Cell>, s: Seq<(usize, usize)>, i: int)
    requires
        0 <= i <= s.len(),
    ensures
        count_alive(g, s.take(i)) <= count_alive(g, s),
    decreases s.len(),
{
    if i < s.len() {
        assert(s.drop_last().take(i) =~= s.take(i));
        lemma_count_prefix(g, s.drop_last(), i);
    } else {
        assert(s.take(i) =~= s);
    }
}

proof fn lemma_count_same_values(a: Grid<Cell>, b: Grid<Cell>, s: Seq<(usize, usize)>)
    requires
        a.same_values(&b),
        forall|i: int| 0 <= i < s.len() ==> a.in_bounds(#[trigger] s[i].0 as int, s[i].1 as int),
    ensures
        count_alive(a, s) == count_alive(b, s),
    decreases s.len(),
{
    if s.len() > 0 {
        let p = s.last();
        assert(a.in_bounds(p.0 as int, p.1 as int));
        lemma_count_same_values(a, b, s.drop_last());
    }
}

/// Stepping is deterministic: grids that hold the same values have successors that
/// hold the same values.
pub proof fn lemma_step_deterministic(a: Grid<Cell>, b: Grid<Cell>, next_a: Grid<Cell>, next_b: Grid<Cell>)
    requires
        a.wf(),
        b.wf(),
        a.same_values(&b),
        is_successor(next_a, a),
        is_successor(next_b, b),
    ensures
        next_a.same_values(&next_b),
{
    assert forall|r: int, c: int| #[trigger] next_a.in_bounds(r, c) implies next_a.at(r, c) == next_b.at(r, c) by {
        assert(a.in_bounds(r, c));
        assert(b.in_bounds(r, c));
        let s = neighbour_seq(a.num_rows(), a.num_cols(), r, c);
        a.lemma_dims_fit();
        crate::grid::lemma_neighbour_bounds(a.num_rows(), a.num_cols(), r, c);
        lemma_count_same_values(a, b, s);
    }
}

/// Cells are copied exactly: a grid built from `values` of the right length holds
/// `values[col * rows + row]` at every coordinate `(row, col)`.
pub proof fn lemma_from_slice_cells(values: Seq<Cell>, g: Grid<Cell>)
    requires
        values.len() == g.num_rows() * g.num_cols(),
        forall|r: int, c: int| #[trigger]
            g.in_bounds(r, c) ==> cloned(values[slot(g.num_rows(), r, c)], g.at(r, c)),
    ensures
        forall|r: int, c: int| #[trigger]
            g.in_bounds(r, c) ==> g.at(r, c) == values[slot(g.num_rows(), r, c)],
{
}

/// A Game of Life that owns its current generation.
#[derive(PartialEq, Eq)]
pub struct GameOfLife {
    grid: Grid<Cell>,
}

impl GameOfLife {
    /// The current generation.
    pub closed spec fn generation(&self) -> Grid<Cell> {
        self.grid
    }

    /// Starts from `grid` as the first generation.
    pub fn from_grid(grid: Grid<Cell>) -> (r: Self)
        ensures
            r.generation() == grid,
    {
        GameOfLife { grid }
    }

    /// The current generation.
    pub fn get_grid(&self) -> (r: &Grid<Cell>)
        ensures
            *r == self.generation(),
    {
        &self.grid
    }

    /// Replaces the current generation by the next one, computed in full from the
    /// current one before it is discarded.
    pub fn step(&mut self)
        requires
            old(self).generation().wf(),
        ensures
            is_successor(final(self).generation(), old(self).generation()),
    {
        let ghost cur = self.grid;
        let (rows, cols) = self.grid.size();
        let mut next: Grid<Cell> = Grid::new(rows, cols);
        let mut row: usize = 0;
        while row < rows
            invariant
                cur == self.grid,
                cur.wf(),
                rows == cur.num_rows(),
                cols == cur.num_cols(),
                row <= rows,
                next.wf(),
                next.num_rows() == rows,
                next.num_cols() == cols,
                forall|r: int, c: int| #[trigger]
                    cur.in_bounds(r, c) ==> next.at(r, c) == if r < row {
                        next_state(cur.at(r, c), live_neighbours(cur, r, c))
                    } else {
                        Cell::Dead
                    },
            decreases rows - row,
        {
            let mut col: usize = 0;
            while col < cols
                invariant
                    cur == self.grid,
                    cur.wf(),
                    rows == cur.num_rows(),
                    cols == cur.num_cols(),
                    row < rows,
                    col <= cols,
                    next.wf(),
                    next.num_rows() == rows,
                    next.num_cols() == cols,
                    forall|r: int, c: int| #[trigger]
                        cur.in_bounds(r, c) ==> next.at(r, c) == if r < row || (r == row && c < col) {
                            next_state(cur.at(r, c), live_neighbours(cur, r, c))
                        } else {
                            Cell::Dead
                        },
                decreases cols - col,
            {
                assert(cur.in_bounds(row as int, col as int));
                let live = self.live_around(row, col);
                let here = *self.grid.get(row, col);
                if (here == Cell::Alive && (live == 2 || live == 3)) || (here == Cell::Dead && live == 3) {
                    next.set(Cell::Alive, row, col);
                }
                assert(next.at(row as int, col as int) == next_state(
                    cur.at(row as int, col as int),
                    live_neighbours(cur, row as int, col as int),
                ));
                col += 1;
            }
            row += 1;
        }
        self.grid = next;
    }

    /// Alive neighbours of `(row, col)`, exact up to three; above three the count
    /// stops early, since no rule tells such counts apart.
    fn live_around(&self, row: usize, col: usize) -> (n: u32)
        requires
            self.grid.wf(),
            self.grid.in_bounds(row as int, col as int),
        ensures
            n <= 3 ==> n == live_neighbours(self.grid, row as int, col as int),
            n > 3 ==> live_neighbours(self.grid, row as int, col as int) > 3,
            next_state(self.grid.at(row as int, col as int), n as nat) == next_state(
                self.grid.at(row as int, col as int),
                live_neighbours(self.grid, row as int, col as int),
            ),
    {
        let ghost g = self.grid;
        let around = self.grid.neighbours(row, col);
        assert(around@.take(around@.len() as int) =~= around@);
        let mut live: u32 = 0;
        let mut i: usize = 0;
        while i < around.len()
            invariant_except_break
                live <= 3,
            invariant
                g == self.grid,
                g.wf(),
                i <= around@.len(),
                forall|j: int| #![trigger around@[j]]
                    0 <= j < around@.len() ==> g.in_bounds(around@[j].0 as int, around@[j].1 as int),
                live == count_alive(g, around@.take(i as int)),
                around@.take(around@.len() as int) == around@,
            ensures
                live <= 3 ==> live == count_alive(g, around@),
                live > 3 ==> count_alive(g, around@) > 3,
            decreases around@.len() - i,
        {
            let (nr, nc) = around[i];
            assert(around@.take(i + 1).drop_last() =~= around@.take(i as int));
            if *self.grid.get(nr, nc) == Cell::Alive {
                live += 1;
            }
            i += 1;
            if live > 3 {
                proof {
                    lemma_count_prefix(g, around@, i as int);
                }
                break;
            }
        }
        live
    }
}

} // verus!
