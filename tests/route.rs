use layout::grid::{Cell, Grid};
use layout::ports::{resolve_port, PortChoice};
use layout::route::{extension, route_cells, Side};

fn aligned(a: Cell, b: Cell) -> bool {
    a.0 == b.0 || a.1 == b.1
}

#[test]
fn extension_walks_past_obstacles() {
    let mut g = Grid::new(20, 10);
    g.block_rect(3, 0, 8, 10);
    assert_eq!(extension(&g, (5, 4), Side::Right), (8, 4));
    assert_eq!(extension(&g, (5, 4), Side::Left), (2, 4));
    assert_eq!(extension(&g, (5, 4), Side::Top), (5, 0));
}

#[test]
fn extension_free_neighbour_is_next_cell() {
    let g = Grid::new(20, 10);
    assert_eq!(extension(&g, (5, 4), Side::Bottom), (5, 5));
}

#[test]
fn extension_falls_back_to_clamped_stub() {
    let mut g = Grid::new(10, 10);
    g.block_rect(0, 0, 3, 10);
    assert_eq!(extension(&g, (2, 4), Side::Left), (0, 4));
    let mut h = Grid::new(10, 10);
    h.block_rect(0, 0, 10, 10);
    assert_eq!(extension(&h, (5, 8), Side::Bottom), (5, 9));
    assert_eq!(extension(&h, (1, 1), Side::Right), (6, 1));
}

#[test]
fn routed_path_has_only_straight_segments() {
    let mut g = Grid::new(40, 20);
    g.block_rect(2, 2, 10, 10);
    g.block_rect(25, 8, 35, 16);
    let r = route_cells(&mut g, (9, 5), Side::Right, (25, 12), Side::Left);
    assert!(r.len() >= 4);
    assert_eq!(r[0], (9, 5));
    assert_eq!(r[1], (10, 5));
    assert_eq!(r[r.len() - 2], (24, 12));
    assert_eq!(*r.last().unwrap(), (25, 12));
    for w in r.windows(2) {
        assert!(aligned(w[0], w[1]));
    }
    assert!(!g.is_obstacle((9, 5)));
    assert!(!g.is_obstacle((25, 12)));
}

#[test]
fn route_between_walled_in_anchors_falls_back() {
    let mut g = Grid::new(12, 12);
    g.block_rect(0, 0, 12, 12);
    let r = route_cells(&mut g, (1, 1), Side::Right, (9, 9), Side::Left);
    assert_eq!(r, vec![(1, 1), (6, 1), (4, 9), (9, 9)]);
}

#[test]
fn portless_nodes_still_get_a_route() {
    let none: Vec<Option<usize>> = vec![];
    assert!(matches!(resolve_port(&none, None), PortChoice::Center));
    let mut g = Grid::new(30, 30);
    g.block_rect(0, 0, 10, 10);
    g.block_rect(20, 20, 30, 30);
    let r = route_cells(&mut g, (5, 5), Side::Right, (25, 25), Side::Left);
    assert!(r.len() >= 2);
    assert_eq!(r[0], (5, 5));
    assert_eq!(*r.last().unwrap(), (25, 25));
}
