//! The graph builder: one pass over a windowed subsequence of the movies
//! to make the nodes, one pass over the equally windowed ratings to make
//! the edges, with bounds checks and edge de-duplication.

use vstd::prelude::*;

verus! {

use crate::graph::{
    MovieGraph, graph_add_edge, graph_add_node, graph_contains_edge, graph_edges, graph_new,
    graph_node_count, graph_nodes, has_edge,
};
use crate::records::{MovieRecord, RatingRecord};

/// The windowed subsequence of `s`: the first 10 and the last 10 elements
/// are skipped; with fewer than 20 elements nothing is left.
pub open spec fn window<A>(s: Seq<A>) -> Seq<A> {
    if s.len() >= 20 {
        s.subrange(10, s.len() - 10)
    } else {
        Seq::<A>::empty()
    }
}

/// The titles of `ms`, in order.
pub open spec fn titles(ms: Seq<MovieRecord>) -> Seq<Seq<char>> {
    ms.map_values(|m: MovieRecord| m.title@)
}

/// The node labels the builder produces from `ms`: the titles of the
/// windowed movies, in order.
pub open spec fn built_nodes(ms: Seq<MovieRecord>) -> Seq<Seq<char>> {
    titles(window(ms))
}

/// The edge list that a left-to-right pass over the ratings `rs` produces
/// against `n` nodes: a rating whose identifiers are at least 1 and whose
/// positions `movie_id - 1` (source) and `user_id - 1` (target) both lie
/// below `n` adds one edge, unless that ordered pair is already present;
/// every other rating is dropped.
pub open spec fn edges_from(n: int, rs: Seq<RatingRecord>) -> Seq<(int, int, u32)>
    decreases rs.len(),
{
    if rs.len() == 0 {
        Seq::<(int, int, u32)>::empty()
    } else {
        let prev = edges_from(n, rs.drop_last());
        let r = rs.last();
        if 1 <= r.movie_id && 1 <= r.user_id && r.movie_id - 1 < n && r.user_id - 1 < n
            && !has_edge(prev, r.movie_id - 1, r.user_id - 1) {
            prev.push((r.movie_id - 1, r.user_id - 1, r.score))
        } else {
            prev
        }
    }
}

/// The edges the builder produces: the windowed ratings, passed over the
/// nodes built from `ms`.
pub open spec fn built_edges(ms: Seq<MovieRecord>, rs: Seq<RatingRecord>) -> Seq<(int, int, u32)> {
    edges_from(built_nodes(ms).len() as int, window(rs))
}

/// Build the movie graph: one node per windowed movie, labeled with its
/// title, then one edge per windowed rating that survives the bounds and
/// de-duplication checks, labeled with its score. Never fails; invalid
/// rows are dropped. The length bounds only keep the graph inside its
/// `u32` index space.
pub fn build(movies: &Vec<MovieRecord>, ratings: &Vec<RatingRecord>) -> (g: MovieGraph)
    requires
        movies@.len() < 0xFFFF_FFFF,
        ratings@.len() < 0xFFFF_FFFF,
    ensures
        graph_nodes(g) == built_nodes(movies@),
        graph_edges(g) == built_edges(movies@, ratings@),
{
    let mut g = graph_new();
    let m_len = movies.len();
    if m_len >= 20 {
        let count = m_len - 20;
        let mut i: usize = 0;
        while i < count
            invariant
                m_len == movies@.len(),
                20 <= m_len < 0xFFFF_FFFF,
                count == m_len - 20,
                i <= count,
                graph_nodes(g) == titles(movies@.subrange(10, 10 + i as int)),
                graph_edges(g) == Seq::<(int, int, u32)>::empty(),
            decreases count - i,
        {
            let title = movies[10 + i].title.clone();
            graph_add_node(&mut g, title);
            proof {
                assert(movies@.subrange(10, 10 + (i + 1) as int)
                    =~= movies@.subrange(10, 10 + i as int).push(movies@[10 + i]));
                assert(titles(movies@.subrange(10, 10 + i as int)).push(movies@[10 + i].title@)
                    =~= titles(movies@.subrange(10, 10 + (i + 1) as int)));
            }
            i = i + 1;
        }
        proof {
            assert(movies@.subrange(10, 10 + count as int) =~= window(movies@));
        }
    } else {
        proof {
            assert(graph_nodes(g) =~= built_nodes(movies@));
        }
    }
    let n = graph_node_count(&g);
    let r_len = ratings.len();
    if r_len >= 20 {
        let rcount = r_len - 20;
        let mut j: usize = 0;
        while j < rcount
            invariant
                r_len == ratings@.len(),
                20 <= r_len < 0xFFFF_FFFF,
                rcount == r_len - 20,
                j <= rcount,
                n == graph_nodes(g).len(),
                graph_nodes(g) == built_nodes(movies@),
                graph_edges(g) == edges_from(n as int, window(ratings@).take(j as int)),
            decreases rcount - j,
        {
            proof {
                lemma_edges_from_len(n as int, window(ratings@).take(j as int));
                assert(window(ratings@).take((j + 1) as int).drop_last()
                    =~= window(ratings@).take(j as int));
                assert(window(ratings@).take((j + 1) as int).last() == ratings@[10 + j]);
            }
            let r = &ratings[10 + j];
            if r.movie_id >= 1 && r.user_id >= 1 {
                let s = (r.movie_id - 1) as usize;
                let t = (r.user_id - 1) as usize;
                if s < n && t < n {
                    if !graph_contains_edge(&g, s, t) {
                        graph_add_edge(&mut g, s, t, r.score);
                    }
                }
            }
            j = j + 1;
        }
        proof {
            assert(window(ratings@).take(rcount as int) =~= window(ratings@));
        }
    } else {
        proof {
            assert(window(ratings@) =~= Seq::<RatingRecord>::empty());
        }
    }
    g
}

/// A pass over `rs` adds at most one edge per rating.
pub proof fn lemma_edges_from_len(n: int, rs: Seq<RatingRecord>)
    ensures
        edges_from(n, rs).len() <= rs.len(),
    decreases rs.len(),
{
    if rs.len() > 0 {
        lemma_edges_from_len(n, rs.drop_last());
    }
}

/// Whether no two entries of `es` share the same ordered (source, target)
/// pair.
pub open spec fn pairwise_distinct(es: Seq<(int, int, u32)>) -> bool {
    forall|i: int, j: int| 0 <= i < j < es.len() ==>
        !((#[trigger] es[i]).0 == (#[trigger] es[j]).0 && es[i].1 == es[j].1)
}

/// Whether the edge `e` is what the rating `r` contributes: both
/// identifiers at least 1, source `movie_id - 1`, target `user_id - 1`,
/// and the rating's score.
pub open spec fn edge_of(r: RatingRecord, e: (int, int, u32)) -> bool {
    &&& 1 <= r.movie_id
    &&& 1 <= r.user_id
    &&& e.0 == r.movie_id - 1
    &&& e.1 == r.user_id - 1
    &&& e.2 == r.score
}

proof fn lemma_edges_from_distinct(n: int, rs: Seq<RatingRecord>)
    ensures
        pairwise_distinct(edges_from(n, rs)),
    decreases rs.len(),
{
    if rs.len() > 0 {
        lemma_edges_from_distinct(n, rs.drop_last());
        let r = rs.last();
        let prev = edges_from(n, rs.drop_last());
        let es = edges_from(n, rs);
        if 1 <= r.movie_id && 1 <= r.user_id && r.movie_id - 1 < n && r.user_id - 1 < n
            && !has_edge(prev, r.movie_id - 1, r.user_id - 1) {
            assert forall|i: int, j: int| 0 <= i < j < es.len() implies
                !((#[trigger] es[i]).0 == (#[trigger] es[j]).0 && es[i].1 == es[j].1) by {
                if j == es.len() - 1 {
                    if es[i].0 == es[j].0 && es[i].1 == es[j].1 {
                        assert(prev[i].0 == r.movie_id - 1 && prev[i].1 == r.user_id - 1);
                        assert(has_edge(prev, r.movie_id - 1, r.user_id - 1));
                    }
                }
            };
        }
    }
}

proof fn lemma_edges_from_window(n: int, rs: Seq<RatingRecord>)
    ensures
        forall|k: int| 0 <= k < edges_from(n, rs).len() ==>
            exists|j: int| 0 <= j < rs.len()
                && edge_of(#[trigger] rs[j], #[trigger] edges_from(n, rs)[k]),
    decreases rs.len(),
{
    if rs.len() > 0 {
        lemma_edges_from_window(n, rs.drop_last());
        let r = rs.last();
        let prev = edges_from(n, rs.drop_last());
        let es = edges_from(n, rs);
        assert forall|k: int| 0 <= k < es.len() implies
            exists|j: int| 0 <= j < rs.len() && edge_of(#[trigger] rs[j], #[trigger] es[k]) by {
            if k < prev.len() {
                let j = choose|j: int| 0 <= j < rs.drop_last().len()
                    && edge_of(#[trigger] rs.drop_last()[j], prev[k]);
                assert(edge_of(rs[j], es[k]));
            } else {
                assert(edge_of(rs[rs.len() - 1], es[k]));
            }
        };
    }
}

/// Building is a function of the two input sequences alone: any two
/// graphs built from identical ordered inputs agree on their node label
/// order, node count, edges, and edge count.
pub proof fn lemma_build_deterministic(
    g1: MovieGraph,
    g2: MovieGraph,
    ms: Seq<MovieRecord>,
    rs: Seq<RatingRecord>,
)
    requires
        graph_nodes(g1) == built_nodes(ms),
        graph_edges(g1) == built_edges(ms, rs),
        graph_nodes(g2) == built_nodes(ms),
        graph_edges(g2) == built_edges(ms, rs),
    ensures
        graph_nodes(g1) == graph_nodes(g2),
        graph_edges(g1) == graph_edges(g2),
        graph_nodes(g1).len() == graph_nodes(g2).len(),
        graph_edges(g1).len() == graph_edges(g2).len(),
{
}

/// The built graph's node count is exactly the windowed movie count,
/// `max(0, len - 20)`; its edge count never exceeds the windowed rating
/// count; and every edge is what some windowed rating contributes, so the
/// edges never outnumber the distinct (source, target) pairs those
/// ratings can produce.
pub proof fn lemma_build_counts(ms: Seq<MovieRecord>, rs: Seq<RatingRecord>)
    ensures
        built_nodes(ms).len() as int == if ms.len() >= 20 { ms.len() as int - 20 } else { 0 },
        built_edges(ms, rs).len() as int <= if rs.len() >= 20 { rs.len() as int - 20 } else { 0 },
        forall|k: int| 0 <= k < built_edges(ms, rs).len() ==>
            exists|j: int| 0 <= j < window(rs).len()
                && edge_of(#[trigger] window(rs)[j], #[trigger] built_edges(ms, rs)[k]),
{
    lemma_edges_from_len(built_nodes(ms).len() as int, window(rs));
    lemma_edges_from_window(built_nodes(ms).len() as int, window(rs));
}

/// No two edges of a built graph share the same ordered (source, target)
/// pair.
pub proof fn lemma_build_edges_distinct(ms: Seq<MovieRecord>, rs: Seq<RatingRecord>)
    ensures
        pairwise_distinct(built_edges(ms, rs)),
{
    lemma_edges_from_distinct(built_nodes(ms).len() as int, window(rs));
}

proof fn lemma_edges_from_bounds(n: int, rs: Seq<RatingRecord>)
    ensures
        forall|k: int| 0 <= k < edges_from(n, rs).len() ==>
            0 <= (#[trigger] edges_from(n, rs)[k]).0 < n && 0 <= edges_from(n, rs)[k].1 < n,
    decreases rs.len(),
{
    if rs.len() > 0 {
        lemma_edges_from_bounds(n, rs.drop_last());
        let prev = edges_from(n, rs.drop_last());
        let es = edges_from(n, rs);
        assert forall|k: int| 0 <= k < es.len() implies
            0 <= (#[trigger] es[k]).0 < n && 0 <= es[k].1 < n by {
            if k < prev.len() {
                assert(es[k] == prev[k]);
            }
        };
    }
}

/// Every edge of a built graph joins two valid node positions: its source
/// and its target both lie below the node count.
pub proof fn lemma_build_edges_in_bounds(ms: Seq<MovieRecord>, rs: Seq<RatingRecord>)
    ensures
        forall|k: int| 0 <= k < built_edges(ms, rs).len() ==>
            0 <= (#[trigger] built_edges(ms, rs)[k]).0 < built_nodes(ms).len()
                && 0 <= built_edges(ms, rs)[k].1 < built_nodes(ms).len(),
{
    lemma_edges_from_bounds(built_nodes(ms).len() as int, window(rs));
}

} // verus!
