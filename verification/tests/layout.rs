use seiren::geometry::Orientation;
use seiren::layout::{connectable, link_once, RouteEdge, RouteNodeId};

#[test]
fn edges_are_added_once() {
    let mut edges = Vec::new();
    link_once(&mut edges, RouteNodeId(2));
    link_once(&mut edges, RouteNodeId(5));
    link_once(&mut edges, RouteNodeId(2));
    assert_eq!(edges.len(), 2);
    assert_eq!(edges[0].dest(), RouteNodeId(2));
    assert_eq!(edges[1].dest(), RouteNodeId(5));
    assert_eq!(RouteEdge::new(RouteNodeId(9)).dest(), RouteNodeId(9));
    assert_eq!(RouteNodeId(9).to_string(), "9");
}

#[test]
fn connectable_directions() {
    assert!(connectable(None, Orientation::Left));
    assert!(connectable(Some(Orientation::Left), Orientation::Left));
    assert!(!connectable(Some(Orientation::Left), Orientation::Right));
}
