use movie_graph::builder::build;
use movie_graph::records::{MovieRecord, RatingRecord};
use petgraph::graph::NodeIndex;

fn movie(id: u32, title: &str) -> MovieRecord {
    MovieRecord { id, title: title.to_string() }
}

fn rating(user_id: u32, movie_id: u32, score: f32) -> RatingRecord {
    RatingRecord { user_id, movie_id, score: score.to_bits() }
}

fn movies_numbered(count: u32) -> Vec<MovieRecord> {
    (1..=count).map(|i| movie(i, &format!("M{}", i))).collect()
}

#[test]
fn empty_inputs_give_empty_graph() {
    let g = build(&Vec::new(), &Vec::new());
    assert_eq!(g.node_count(), 0);
    assert_eq!(g.edge_count(), 0);
}

#[test]
fn twenty_movies_give_no_nodes() {
    let g = build(&movies_numbered(20), &Vec::new());
    assert_eq!(g.node_count(), 0);
    assert_eq!(g.edge_count(), 0);
}

#[test]
fn twenty_two_movies_keep_the_two_windowed_titles() {
    let movies = movies_numbered(22);
    let g = build(&movies, &Vec::new());
    assert_eq!(g.node_count(), 2);
    assert_eq!(g.edge_count(), 0);
    assert_eq!(g.node_weight(NodeIndex::new(0)).unwrap(), "M11");
    assert_eq!(g.node_weight(NodeIndex::new(1)).unwrap(), "M12");
}

#[test]
fn build_is_deterministic() {
    let movies = movies_numbered(25);
    let mut ratings = vec![rating(9, 9, 1.0); 22];
    ratings[10] = rating(1, 11, 3.0);
    ratings[11] = rating(2, 12, 2.5);
    let g1 = build(&movies, &ratings);
    let g2 = build(&movies, &ratings);
    assert_eq!(g1.node_count(), g2.node_count());
    assert_eq!(g1.edge_count(), g2.edge_count());
    for i in 0..g1.node_count() {
        assert_eq!(
            g1.node_weight(NodeIndex::new(i)).unwrap(),
            g2.node_weight(NodeIndex::new(i)).unwrap()
        );
    }
}

#[test]
fn windowed_rating_adds_one_labeled_edge() {
    // 31 movies: the window keeps 11 nodes, positions 0..11.
    let movies = movies_numbered(31);
    // 21 ratings: the window keeps only position 10, which points at
    // source 10 (movie 11) and target 0 (user 1).
    let mut ratings = vec![rating(99, 99, 1.0); 21];
    ratings[10] = rating(1, 11, 4.5);
    let g = build(&movies, &ratings);
    assert_eq!(g.node_count(), 11);
    assert_eq!(g.edge_count(), 1);
    let source = NodeIndex::new(10);
    let target = NodeIndex::new(0);
    assert!(g.contains_edge(source, target));
    assert!(!g.contains_edge(target, source));
    let edge = g.find_edge(source, target).unwrap();
    assert_eq!(f32::from_bits(*g.edge_weight(edge).unwrap()), 4.5);
}

#[test]
fn duplicate_pairs_keep_first_edge_only() {
    let movies = movies_numbered(31);
    let mut ratings = vec![rating(99, 99, 1.0); 23];
    ratings[10] = rating(1, 11, 4.5);
    ratings[11] = rating(1, 11, 2.0);
    ratings[12] = rating(2, 11, 3.0);
    let g = build(&movies, &ratings);
    assert_eq!(g.edge_count(), 2);
    let edge = g.find_edge(NodeIndex::new(10), NodeIndex::new(0)).unwrap();
    // The second rating for the same ordered pair was discarded, not merged.
    assert_eq!(f32::from_bits(*g.edge_weight(edge).unwrap()), 4.5);
    assert!(g.contains_edge(NodeIndex::new(10), NodeIndex::new(1)));
}

#[test]
fn out_of_range_identifiers_add_no_edge() {
    let movies = movies_numbered(31);
    let mut ratings = vec![rating(99, 99, 1.0); 24];
    ratings[10] = rating(0, 11, 1.0); // user 0: target underflows
    ratings[11] = rating(1, 0, 1.0); // movie 0: source underflows
    ratings[12] = rating(12, 11, 1.0); // user 12: target 11 out of 11 nodes
    ratings[13] = rating(1, 50, 1.0); // movie 50: source 49 out of 11 nodes
    let g = build(&movies, &ratings);
    assert_eq!(g.node_count(), 11);
    assert_eq!(g.edge_count(), 0);
}
