use layout::types::{check_write_back, GraphEdge, LayoutError, PortType};

#[test]
fn graph_edge_new_keeps_ends() {
    let e = GraphEdge::new(2, 5);
    assert_eq!(e.source, 2);
    assert_eq!(e.target, 5);
    assert_ne!(PortType::Input, PortType::Output);
}

#[test]
fn write_back_matches_counts() {
    assert_eq!(check_write_back(3, 3, 2, 2), Ok(()));
    assert_eq!(check_write_back(2, 3, 2, 2), Err(LayoutError::InvalidNodeIndex));
    assert_eq!(check_write_back(4, 3, 2, 2), Err(LayoutError::InvalidNodeIndex));
    assert_eq!(check_write_back(3, 3, 1, 2), Err(LayoutError::InvalidEdgeIndex));
}
