use game_of_life::{Cell, Grid};

#[test]
fn new_grid_is_all_default() {
    let g: Grid<Cell> = Grid::new(2, 3);
    assert_eq!(g.size(), (2, 3));
    for r in 0..2 {
        for c in 0..3 {
            assert_eq!(*g.get(r, c), Cell::Dead);
        }
    }
    let n: Grid<u32> = Grid::new(4, 1);
    assert_eq!(*n.get(3, 0), 0);
}

#[test]
fn zero_sized_grids() {
    let a: Grid<Cell> = Grid::new(0, 5);
    assert_eq!(a.size(), (0, 5));
    let b: Grid<Cell> = Grid::new(3, 0);
    assert_eq!(b.size(), (3, 0));
    let c: Grid<u8> = Grid::from_slice(&[], 0, 0);
    assert_eq!(c.size(), (0, 0));
}

#[test]
fn set_then_get_touches_one_slot() {
    let mut g: Grid<u32> = Grid::new(3, 4);
    g.set(7, 1, 2);
    assert_eq!(*g.get(1, 2), 7);
    for r in 0..3 {
        for c in 0..4 {
            if (r, c) != (1, 2) {
                assert_eq!(*g.get(r, c), 0);
            }
        }
    }
    g.set(9, 2, 1);
    assert_eq!(*g.get(2, 1), 9);
    assert_eq!(*g.get(1, 2), 7);
}

#[test]
fn from_slice_is_column_major() {
    let values = [1, 2, 3, 4, 5, 6];
    let g = Grid::from_slice(&values, 2, 3);
    assert_eq!(g.size(), (2, 3));
    for r in 0..2 {
        for c in 0..3 {
            assert_eq!(*g.get(r, c), values[c * 2 + r]);
        }
    }
    assert_eq!(*g.get(1, 0), 2);
    assert_eq!(*g.get(0, 2), 5);
}

#[test]
fn from_slice_copies_values() {
    let mut values = vec![Cell::Dead, Cell::Alive, Cell::Dead, Cell::Dead];
    let g = Grid::from_slice(&values, 2, 2);
    values[0] = Cell::Alive;
    assert_eq!(*g.get(0, 0), Cell::Dead);
    assert_eq!(*g.get(1, 0), Cell::Alive);
}

#[test]
fn clone_is_independent() {
    let mut a: Grid<u32> = Grid::new(2, 2);
    let b = a.clone();
    a.set(5, 0, 1);
    assert_eq!(*b.get(0, 1), 0);
    assert_ne!(a, b);
}

fn sorted(mut v: Vec<(usize, usize)>) -> Vec<(usize, usize)> {
    v.sort();
    v
}

#[test]
fn neighbours_of_interior_cell() {
    let g: Grid<Cell> = Grid::new(5, 5);
    let n = g.neighbours(2, 2);
    assert_eq!(n.len(), 8);
    assert_eq!(
        n,
        vec![(1, 1), (1, 2), (1, 3), (2, 1), (2, 3), (3, 1), (3, 2), (3, 3)]
    );
}

#[test]
fn neighbours_of_corner_cells() {
    let g: Grid<Cell> = Grid::new(4, 3);
    assert_eq!(sorted(g.neighbours(0, 0)), vec![(0, 1), (1, 0), (1, 1)]);
    assert_eq!(sorted(g.neighbours(3, 2)), vec![(2, 1), (2, 2), (3, 1)]);
    assert_eq!(g.neighbours(0, 2).len(), 3);
    assert_eq!(g.neighbours(3, 0).len(), 3);
}

#[test]
fn neighbours_of_edge_cells() {
    let g: Grid<Cell> = Grid::new(4, 4);
    assert_eq!(
        sorted(g.neighbours(0, 1)),
        vec![(0, 0), (0, 2), (1, 0), (1, 1), (1, 2)]
    );
    assert_eq!(g.neighbours(3, 2).len(), 5);
    assert_eq!(g.neighbours(1, 0).len(), 5);
    assert_eq!(g.neighbours(2, 3).len(), 5);
}

#[test]
fn neighbours_stay_in_bounds_and_skip_centre() {
    let g: Grid<Cell> = Grid::new(3, 4);
    for r in 0..3 {
        for c in 0..4 {
            let n = g.neighbours(r, c);
            assert!(!n.contains(&(r, c)));
            for &(nr, nc) in &n {
                assert!(nr < 3 && nc < 4);
                assert!(nr + 1 >= r && nr <= r + 1 && nc + 1 >= c && nc <= c + 1);
            }
            assert_eq!(n, g.neighbours(r, c));
        }
    }
}

#[test]
fn neighbours_in_a_single_row() {
    let g: Grid<Cell> = Grid::new(1, 3);
    assert_eq!(g.neighbours(0, 0), vec![(0, 1)]);
    assert_eq!(g.neighbours(0, 1), vec![(0, 0), (0, 2)]);
    let one: Grid<Cell> = Grid::new(1, 1);
    assert!(one.neighbours(0, 0).is_empty());
}
