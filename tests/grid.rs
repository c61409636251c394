use layout::grid::{same_cell, Cell, Grid};

fn is_step(a: Cell, b: Cell) -> bool {
    (a.1 == b.1 && (a.0 + 1 == b.0 || b.0 + 1 == a.0)) || (a.0 == b.0 && (a.1 + 1 == b.1 || b.1 + 1 == a.1))
}

#[test]
fn new_grid_is_free() {
    let g = Grid::new(4, 3);
    assert_eq!(g.width, 4);
    assert_eq!(g.height, 3);
    assert_eq!(g.obstacles.len(), 12);
    for y in 0..3 {
        for x in 0..4 {
            assert!(!g.is_obstacle((x, y)));
        }
    }
}

#[test]
fn set_obstacle_marks_one_cell() {
    let mut g = Grid::new(4, 3);
    g.set_obstacle((2, 1), true);
    assert!(g.is_obstacle((2, 1)));
    assert_eq!(g.index((2, 1)), 6);
    assert_eq!(g.obstacles.iter().filter(|b| **b).count(), 1);
    g.set_obstacle((2, 1), false);
    assert!(!g.is_obstacle((2, 1)));
}

#[test]
fn block_rect_is_clipped_to_grid() {
    let mut g = Grid::new(5, 5);
    g.block_rect(3, 3, 10, 10);
    for y in 0..5 {
        for x in 0..5 {
            assert_eq!(g.is_obstacle((x, y)), x >= 3 && y >= 3);
        }
    }
}

#[test]
fn neighbors_in_order_and_skip_obstacles() {
    let mut g = Grid::new(3, 3);
    assert_eq!(g.neighbors((1, 1)), vec![(0, 1), (2, 1), (1, 0), (1, 2)]);
    g.set_obstacle((2, 1), true);
    assert_eq!(g.neighbors((1, 1)), vec![(0, 1), (1, 0), (1, 2)]);
    assert_eq!(g.neighbors((0, 0)), vec![(1, 0), (0, 1)]);
}

#[test]
fn find_path_same_cell_gives_pair() {
    let g = Grid::new(3, 3);
    assert_eq!(g.find_path((1, 1), (1, 1)), vec![(1, 1), (1, 1)]);
}

#[test]
fn find_path_straight_line() {
    let g = Grid::new(6, 2);
    let p = g.find_path((0, 0), (5, 0));
    assert_eq!(p, vec![(0, 0), (1, 0), (2, 0), (3, 0), (4, 0), (5, 0)]);
}

#[test]
fn find_path_goes_around_a_wall() {
    let mut g = Grid::new(5, 5);
    g.block_rect(2, 0, 3, 4);
    let p = g.find_path((0, 0), (4, 0));
    assert_eq!(p[0], (0, 0));
    assert_eq!(*p.last().unwrap(), (4, 0));
    for w in p.windows(2) {
        assert!(is_step(w[0], w[1]));
    }
    for c in &p[1..] {
        assert!(!g.is_obstacle(*c));
    }
    assert!(p.contains(&(2, 4)));
    assert_eq!(p.len(), 13);
}

#[test]
fn find_path_falls_back_when_enclosed() {
    let mut g = Grid::new(5, 5);
    g.set_obstacle((1, 0), true);
    g.set_obstacle((0, 1), true);
    assert_eq!(g.find_path((0, 0), (4, 4)), vec![(0, 0), (4, 4)]);
}

#[test]
fn same_cell_compares_both_axes() {
    assert!(same_cell((1, 2), (1, 2)));
    assert!(!same_cell((1, 2), (2, 1)));
}

#[test]
fn find_path_in_open_grid_is_shortest() {
    let g = Grid::new(10, 10);
    let p = g.find_path((1, 2), (7, 9));
    assert_eq!(p.len(), 6 + 7 + 1);
    for w in p.windows(2) {
        assert!(is_step(w[0], w[1]));
    }
}
