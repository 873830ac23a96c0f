use seiren::grid::{DiGridGraph, EdgeIndex, GridPoint, GridShape, NodeIndex, UnGridGraph};

#[test]
fn node_point() {
    let shape = GridShape::new(3, 2);

    assert_eq!(shape.node_point(0), GridPoint::new(0, 0));
    assert_eq!(shape.node_point(2), GridPoint::new(2, 0));
    assert_eq!(shape.node_point(3), GridPoint::new(0, 1));
    assert_eq!(shape.node_point(5), GridPoint::new(2, 1));
}

#[test]
fn edge_index_between() {
    let shape = GridShape::new(3, 2);

    // *---*...o...
    // :   :   :
    // o...o...o...
    assert_eq!(shape.edge_index_between(0, 1), 0);
    assert_eq!(shape.edge_index_between(1, 0), 0);
    // *...o...o...
    // |   :   :
    // *...o...o...
    assert_eq!(shape.edge_index_between(0, 3), 3);
    assert_eq!(shape.edge_index_between(3, 0), 3);
    // o...o...o...
    // :   :   :
    // o...o---o...
    assert_eq!(shape.edge_index_between(4, 5), 7);
    assert_eq!(shape.edge_index_between(5, 4), 7);
}

#[test]
fn add_node() {
    let mut g = UnGridGraph::<&str, ()>::with_grid(3, 2);

    let a = g.add_node("A");
    let b = g.add_node("B");
    let c = g.add_node("C");
    let d = g.add_node("D");

    assert_eq!(a, NodeIndex::new(0));
    assert_eq!(b, NodeIndex::new(1));
    assert_eq!(c, NodeIndex::new(2));
    assert_eq!(d, NodeIndex::new(3));
}

#[test]
fn add_edge() {
    let mut g = DiGridGraph::<&str, i32>::with_grid(3, 2);

    let a = g.add_node("A");
    let b = g.add_node("B");
    let c = g.add_node("C");
    let d = g.add_node("D");

    let e1 = g.add_edge(a, b, 10);
    let e2 = g.add_edge(b, c, 20);
    let e3 = g.add_edge(a, d, 30);

    assert_eq!(e1, EdgeIndex::new(0));
    assert_eq!(e2, EdgeIndex::new(1));
    assert_eq!(e3, EdgeIndex::new(3));
}

#[test]
fn grid_bounds() {
    let shape = GridShape::new(3, 2);
    assert_eq!(shape.columns(), 3);
    assert_eq!(shape.rows(), 2);
    assert_eq!(shape.node_bound(), 6);
    // columns * (2 * rows - 1) edge cells
    assert_eq!(shape.edge_bound(), 9);
    assert_eq!(GridShape::new(0, 4).edge_bound(), 0);
}

#[test]
fn edge_indices_are_distinct() {
    let shape = GridShape::new(4, 3);
    let mut seen = std::collections::HashSet::new();
    for a in 0..shape.node_bound() {
        for b in 0..shape.node_bound() {
            let (pa, pb) = (shape.node_point(a), shape.node_point(b));
            let dx = (pa.x() as i64 - pb.x() as i64).abs();
            let dy = (pa.y() as i64 - pb.y() as i64).abs();
            if a < b && dx + dy == 1 {
                let e = shape.edge_index_between(a, b);
                assert_eq!(e, shape.edge_index_between(b, a));
                assert!(e < shape.edge_bound());
                assert!(seen.insert(e));
            }
        }
    }
}

#[test]
fn graph_counts_and_weights() {
    let mut g = UnGridGraph::<&str, u8>::with_grid(2, 2);
    assert_eq!(g.node_bound(), 4);
    assert_eq!(g.node_count(), 0);
    assert!(!g.is_directed());
    let a = g.add_node("A");
    let b = g.add_node("B");
    assert_eq!(g.node_count(), 2);
    assert_eq!(g.node_weight(a), Some(&"A"));
    assert_eq!(g.node_weight(NodeIndex::new(3)), None);
    if let Some(w) = g.node_weight_mut(b) {
        *w = "Z";
    }
    assert_eq!(g.node_weight(b), Some(&"Z"));
    let e = g.add_edge(a, b, 7);
    assert_eq!(e, EdgeIndex::new(0));
    assert_eq!(g.edge_count(), 1);
    let ids: Vec<usize> = {
        let mut it = g.node_indices();
        let mut v = Vec::new();
        while let Some(n) = it.next() {
            v.push(n.index());
        }
        v
    };
    assert_eq!(ids, vec![0, 1]);
    assert!(DiGridGraph::<u8, u8>::with_grid(1, 1).is_directed());
}

#[test]
fn visit_maps_and_indexing() {
    let mut g = UnGridGraph::<&str, i32>::with_grid(3, 2);
    let a = g.add_node("A");
    let b = g.add_node("B");
    let map = g.visit_map();
    assert_eq!(map.len(), 2);
    assert_eq!(map.count_ones(..), 0);

    let mut map = fixedbitset::FixedBitSet::with_capacity(1);
    map.insert(0);
    g.reset_map(&mut map);
    assert_eq!(map.len(), 2);
    assert_eq!(map.count_ones(..), 0);

    assert_eq!(g.to_index(b), 1);
    assert_eq!(g.from_index(1), b);
    assert_eq!(*g.index(a), "A");
    *g.index_mut(a) = "Q";
    assert_eq!(g.node_weight(a), Some(&"Q"));
    let e = g.add_edge(a, b, 5);
    assert_eq!(*g.edge_weight(e), 5);

    let mut ids = g.node_identifiers();
    assert_eq!(ids.next(), Some(a));
    assert_eq!(ids.next(), Some(b));
    assert_eq!(ids.next(), None);
}

#[test]
fn grid_bounds_of_a_large_grid() {
    let s = GridShape::new(1000, 1000);
    assert_eq!(s.node_bound(), 1_000_000);
    assert_eq!(s.edge_bound(), 1_999_000);
    let s = GridShape::new(u16::MAX, u16::MAX);
    assert_eq!(s.node_bound(), 65535 * 65535);
    assert_eq!(GridShape::new(0, 7).edge_bound(), 0);
}
