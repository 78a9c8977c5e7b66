use movie_graph::builder::build;
use movie_graph::paths::shortest_path;
use movie_graph::records::{MovieRecord, RatingRecord};

fn movie(id: u32, title: &str) -> MovieRecord {
    MovieRecord { id, title: title.to_string() }
}

fn rating(user_id: u32, movie_id: u32, score: f32) -> RatingRecord {
    RatingRecord { user_id, movie_id, score: score.to_bits() }
}

fn movies_numbered(count: u32) -> Vec<MovieRecord> {
    (1..=count).map(|i| movie(i, &format!("M{}", i))).collect()
}

/// A graph on 10 nodes whose windowed ratings draw the given edges, each
/// `(source, target)` as node positions.
fn graph_with_edges(edges: &[(u32, u32)]) -> petgraph::graph::Graph<String, u32> {
    let movies = movies_numbered(30);
    let mut ratings = vec![rating(99, 99, 1.0); 20 + edges.len()];
    for (i, &(source, target)) in edges.iter().enumerate() {
        // source position = movie_id - 1, target position = user_id - 1
        ratings[10 + i] = rating(target + 1, source + 1, 3.0);
    }
    let g = build(&movies, &ratings);
    assert_eq!(g.node_count(), 10);
    assert_eq!(g.edge_count(), edges.len());
    g
}

#[test]
fn same_start_and_end_give_the_single_node_path() {
    let g = graph_with_edges(&[(0, 1)]);
    assert_eq!(shortest_path(&g, 0, 0), Some(vec![0]));
    assert_eq!(shortest_path(&g, 7, 7), Some(vec![7]));
}

#[test]
fn one_edge_gives_the_two_node_path() {
    let g = graph_with_edges(&[(3, 5)]);
    assert_eq!(shortest_path(&g, 3, 5), Some(vec![3, 5]));
}

#[test]
fn edge_direction_is_respected() {
    let g = graph_with_edges(&[(3, 5)]);
    assert_eq!(shortest_path(&g, 5, 3), None);
}

#[test]
fn unreachable_end_gives_none() {
    let g = graph_with_edges(&[(0, 1), (1, 2)]);
    assert_eq!(shortest_path(&g, 0, 9), None);
    assert_eq!(shortest_path(&g, 2, 0), None);
}

#[test]
fn chain_is_followed_end_to_end() {
    let g = graph_with_edges(&[(0, 1), (1, 2), (2, 3)]);
    assert_eq!(shortest_path(&g, 0, 3), Some(vec![0, 1, 2, 3]));
}

#[test]
fn fewest_hops_win_over_the_longer_walk() {
    let g = graph_with_edges(&[(0, 1), (1, 2), (0, 2)]);
    assert_eq!(shortest_path(&g, 0, 2), Some(vec![0, 2]));
}

#[test]
fn cycle_does_not_trap_the_search() {
    let g = graph_with_edges(&[(0, 1), (1, 0), (1, 2)]);
    assert_eq!(shortest_path(&g, 0, 2), Some(vec![0, 1, 2]));
    assert_eq!(shortest_path(&g, 1, 0), Some(vec![1, 0]));
}

#[test]
fn empty_window_graph_answers_none_for_distinct_nodes() {
    let movies = movies_numbered(22);
    let g = build(&movies, &Vec::new());
    assert_eq!(g.node_count(), 2);
    assert_eq!(shortest_path(&g, 0, 1), None);
    assert_eq!(shortest_path(&g, 1, 0), None);
}
