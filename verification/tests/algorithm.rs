use seiren::algorithm::low_link::LowLink;
use seiren::algorithm::make_biconnected::{make_biconnected, EdgeListGraph};
use seiren::algorithm::shortest_path::shortest_path;

fn graph(node_count: usize, edges: &[(usize, usize)]) -> EdgeListGraph {
    EdgeListGraph { node_count, edges: edges.to_vec() }
}

fn low_link_of(g: &EdgeListGraph) -> LowLink {
    let adj = g.neighbors();
    let nodes: Vec<usize> = (0..g.node_count).collect();
    let mut low_link = LowLink::new(g.node_count);
    low_link.traverse(&adj, &nodes);
    low_link
}

#[test]
fn low_link_1() {
    // v0----.
    // |     |
    // v1    |
    // |     |
    // v4    v2
    //  \   /
    //   \ /
    //    v5 <- articulation
    //    | <-- bridge
    //    v3
    let (v0, v1, v2, v3, v4, v5) = (0, 1, 2, 3, 4, 5);
    let g = graph(6, &[(v0, v1), (v0, v2), (v1, v4), (v4, v5), (v2, v5), (v5, v3)]);

    let low_link = low_link_of(&g);

    assert_eq!(low_link.articulations.len(), 1);
    assert_eq!(low_link.articulations[0], v5);
    assert_eq!(low_link.bridges.len(), 1);
    assert_eq!(low_link.bridges[0], (v3, v5));
}

#[test]
fn low_link_2() {
    // v0- - - -(v1)- - - -(v2)- - - -v3
    let (v0, v1, v2, v3) = (0, 1, 2, 3);
    let g = graph(4, &[(v0, v1), (v1, v2), (v2, v3)]);

    let low_link = low_link_of(&g);

    assert_eq!(low_link.articulations.len(), 2);
    assert_eq!(low_link.articulations[0], v2);
    assert_eq!(low_link.articulations[1], v1);
    assert_eq!(low_link.bridges.len(), 3);
    assert_eq!(low_link.bridges[0], (v2, v3));
    assert_eq!(low_link.bridges[1], (v1, v2));
    assert_eq!(low_link.bridges[2], (v0, v1));
}

#[test]
fn low_link_3() {
    //     6
    //     |
    //  0--1--2--3
    //     |
    //     4
    //     |
    //     5
    let (v0, v1, v2, v3, v4, v5, v6) = (0, 1, 2, 3, 4, 5, 6);
    let g = graph(7, &[(v0, v1), (v1, v2), (v2, v3), (v1, v4), (v4, v5), (v1, v6)]);

    let low_link = low_link_of(&g);

    assert_eq!(low_link.articulations.len(), 3);
    assert_eq!(low_link.articulations[0], v4);
    assert_eq!(low_link.articulations[1], v2);
    assert_eq!(low_link.articulations[2], v1);
    assert_eq!(low_link.bridges.len(), 6);
    assert_eq!(&low_link.bridges, &[(v1, v6), (v4, v5), (v1, v4), (v2, v3), (v1, v2), (v0, v1)]);
}

#[test]
fn low_link_empty() {
    let g = graph(0, &[]);
    let low_link = low_link_of(&g);

    assert_eq!(low_link.articulations.len(), 0);
    assert_eq!(low_link.bridges.len(), 0);
}

#[test]
fn low_link_one() {
    let g = graph(1, &[]);
    let low_link = low_link_of(&g);

    assert_eq!(low_link.articulations.len(), 0);
    assert_eq!(low_link.bridges.len(), 0);
}

#[test]
fn low_link_two() {
    // v0- - - -v1
    let (v0, v1) = (0, 1);
    let g = graph(2, &[(v0, v1)]);

    let low_link = low_link_of(&g);

    assert_eq!(low_link.articulations.len(), 0);
    assert_eq!(low_link.bridges.len(), 1);
    assert_eq!(&low_link.bridges, &[(v0, v1)]);
}

#[test]
fn make_biconnected_1() {
    let (v0, v1, v2, v3, v4, v5) = (0, 1, 2, 3, 4, 5);
    let mut g = graph(6, &[(v0, v1), (v0, v2), (v1, v4), (v4, v5), (v2, v5), (v5, v3)]);

    // -- convert it to biconnected graph
    make_biconnected(&mut g);
    assert_eq!(g.edges.len(), 7);
    g.contains_edge(v0, v3);

    let low_link = low_link_of(&g);

    assert_eq!(low_link.articulations.len(), 0);
    assert_eq!(low_link.bridges.len(), 0);
}

#[test]
fn make_biconnected_2() {
    let (v0, v1, v2, v3) = (0, 1, 2, 3);
    let mut g = graph(4, &[(v0, v1), (v1, v2), (v2, v3)]);

    make_biconnected(&mut g);
    assert_eq!(g.edges.len(), 4);
    g.contains_edge(v0, v3);

    let low_link = low_link_of(&g);

    assert_eq!(low_link.articulations.len(), 0);
    assert_eq!(low_link.bridges.len(), 0);
}

#[test]
fn make_biconnected_3() {
    let (v0, v1, v2, v3, v4, v5, v6) = (0, 1, 2, 3, 4, 5, 6);
    let mut g = graph(7, &[(v0, v1), (v1, v2), (v2, v3), (v1, v4), (v4, v5), (v1, v6)]);

    make_biconnected(&mut g);

    assert_eq!(g.edges.len(), 9);
    g.contains_edge(v0, v5);
    g.contains_edge(v0, v3);

    let low_link = low_link_of(&g);

    assert_eq!(low_link.articulations.len(), 0);
    assert_eq!(low_link.bridges.len(), 0);
}

#[test]
fn make_biconnected_empty() {
    let mut g = graph(0, &[]);

    make_biconnected(&mut g);

    let low_link = low_link_of(&g);

    assert_eq!(low_link.articulations.len(), 0);
    assert_eq!(low_link.bridges.len(), 0);
}

#[test]
fn make_biconnected_one() {
    let mut g = graph(1, &[]);

    make_biconnected(&mut g);
    assert_eq!(g.edges.len(), 0);

    let low_link = low_link_of(&g);

    assert_eq!(low_link.articulations.len(), 0);
    assert_eq!(low_link.bridges.len(), 0);
}

#[test]
fn make_biconnected_two() {
    // A graph of two vertices
    let (v0, v1) = (0, 1);
    let mut g = graph(2, &[(v0, v1)]);
    assert_eq!(g.edges.len(), 1);

    make_biconnected(&mut g);

    let low_link = low_link_of(&g);

    assert_eq!(low_link.articulations.len(), 0);
    assert_eq!(low_link.bridges.len(), 1);
}

#[test]
fn make_biconnected_keeps_edges_and_reports() {
    let mut g = graph(4, &[(0, 1), (1, 2), (2, 3)]);
    make_biconnected(&mut g);
    assert_eq!(&g.edges[..3], &[(0, 1), (1, 2), (2, 3)]);
    for &(a, b) in &g.edges[3..] {
        assert_ne!(a, b);
    }
    assert!(g.contains_edge(0, 1));
    assert!(g.contains_edge(1, 0));
    assert!(!g.contains_edge(0, 2) || g.edges.len() > 3);
}

#[test]
fn leaf_is_no_articulation() {
    let g = graph(3, &[(0, 1), (1, 2)]);
    let low_link = low_link_of(&g);
    assert_eq!(low_link.articulation_points(), &vec![1]);
    assert!(!low_link.articulation_points().contains(&0));
    assert!(!low_link.articulation_points().contains(&2));
    for &(a, b) in low_link.bridge_edges() {
        assert!(g.contains_edge(a, b));
    }
}

fn adjacency(n: usize, edges: &[(usize, usize, u32)]) -> Vec<Vec<(usize, u32)>> {
    let mut adj = vec![Vec::new(); n];
    for &(a, b, w) in edges {
        adj[a].push((b, w));
        adj[b].push((a, w));
    }
    adj
}

#[test]
fn shortest_path_takes_cheapest_route() {
    //  0 --1-- 1 --1-- 2
    //  |               |
    //  +------5--------+
    let adj = adjacency(3, &[(0, 1, 1), (1, 2, 1), (0, 2, 5)]);
    assert_eq!(shortest_path(&adj, 0, 2), Some((2, vec![0, 1, 2])));
    assert_eq!(shortest_path(&adj, 2, 0), Some((2, vec![2, 1, 0])));
}

#[test]
fn shortest_path_direct_edge() {
    let adj = adjacency(3, &[(0, 1, 1), (1, 2, 1), (0, 2, 1)]);
    assert_eq!(shortest_path(&adj, 0, 2), Some((1, vec![0, 2])));
}

#[test]
fn shortest_path_unreachable() {
    let adj = adjacency(4, &[(0, 1, 3), (2, 3, 3)]);
    assert_eq!(shortest_path(&adj, 0, 3), None);
    assert_eq!(shortest_path(&adj, 0, 1), Some((3, vec![0, 1])));
}

#[test]
fn shortest_path_to_itself() {
    // alone: the one-node walk
    let adj = adjacency(2, &[]);
    assert_eq!(shortest_path(&adj, 1, 1), Some((0, vec![1])));
    // with a neighbor, the search moves away from `end` and gives up
    let adj = adjacency(2, &[(0, 1, 4)]);
    assert_eq!(shortest_path(&adj, 0, 0), None);
}

#[test]
fn shortest_path_ignores_edges_to_missing_nodes() {
    let adj = vec![vec![(7, 1), (1, 9)], vec![]];
    assert_eq!(shortest_path(&adj, 0, 1), Some((9, vec![0, 1])));
}

#[test]
fn shortest_path_prefers_lower_index_on_ties() {
    //    1
    //  /   \
    // 0     3
    //  \   /
    //    2
    let adj = adjacency(4, &[(0, 1, 2), (0, 2, 2), (1, 3, 2), (2, 3, 2)]);
    assert_eq!(shortest_path(&adj, 0, 3), Some((4, vec![0, 1, 3])));
}

#[test]
fn shortest_path_large_costs() {
    // costs that add up to just below `u32::MAX` are exact
    let big = u32::MAX / 2;
    let adj = adjacency(3, &[(0, 1, big), (1, 2, big)]);
    assert_eq!(shortest_path(&adj, 0, 2), Some((big * 2, vec![0, 1, 2])));
    // a route that would cost more than a `u32` holds counts as no route,
    // while a cheaper detour is still found
    let adj = adjacency(4, &[(0, 1, u32::MAX - 1), (1, 3, 5), (0, 2, 7), (2, 3, 7)]);
    assert_eq!(shortest_path(&adj, 0, 3), Some((14, vec![0, 2, 3])));
    let adj = adjacency(3, &[(0, 1, u32::MAX - 1), (1, 2, 5)]);
    assert_eq!(shortest_path(&adj, 0, 2), None);
    assert_eq!(shortest_path(&adj, 0, 1), Some((u32::MAX - 1, vec![0, 1])));
}

#[test]
fn neighbors_in_petgraph_order() {
    // leaving edges first, then entering ones, each the newest first
    let g = EdgeListGraph { node_count: 5, edges: vec![(0, 1), (2, 0), (0, 3), (1, 0), (0, 0)] };
    let adj = g.neighbors();
    assert_eq!(adj[0], vec![0, 3, 1, 1, 2]);
    assert_eq!(adj[1], vec![0, 0]);
    assert_eq!(adj[4], Vec::<usize>::new());
}

#[test]
fn make_biconnected_star() {
    // the centre 0 is the only articulation point; no single edge between
    // two leaves removes it, so edges are kept until it is gone
    let mut g = graph(4, &[(0, 1), (0, 2), (0, 3)]);
    make_biconnected(&mut g);
    assert_eq!(&g.edges[..3], &[(0, 1), (0, 2), (0, 3)]);
    let low_link = low_link_of(&g);
    assert_eq!(low_link.articulations.len(), 0);
    assert_eq!(low_link.tree_count(), 1);
}

#[test]
fn make_biconnected_connects_parts() {
    let mut g = graph(3, &[]);
    make_biconnected(&mut g);
    let low_link = low_link_of(&g);
    assert_eq!(low_link.articulations.len(), 0);
    assert_eq!(low_link.tree_count(), 1);
    assert_eq!(g.edges.len(), 3);

    let mut g = graph(2, &[]);
    make_biconnected(&mut g);
    assert_eq!(g.edges, vec![(0, 1)]);
}

#[test]
fn low_link_second_traverse_changes_nothing() {
    let g = graph(4, &[(0, 1), (1, 2), (2, 3)]);
    let adj = g.neighbors();
    let nodes: Vec<usize> = (0..4).collect();
    let mut low_link = LowLink::new(4);
    low_link.traverse(&adj, &nodes);
    let arts = low_link.articulations.clone();
    let bridges = low_link.bridges.clone();
    low_link.traverse(&adj, &nodes);
    assert_eq!(low_link.articulations, arts);
    assert_eq!(low_link.bridges, bridges);
    assert_eq!(low_link.articulations, vec![2, 1]);
}
