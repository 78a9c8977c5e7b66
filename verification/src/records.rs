//! The plain record tuples that the graph is built from.

use vstd::prelude::*;

verus! {

/// One movie row: an externally assigned identifier (not guaranteed
/// contiguous) and a title.
#[derive(Clone)]
pub struct MovieRecord {
    pub id: u32,
    pub title: String,
}

/// One rating row: who rated which movie, and the score. The score is
/// carried as an opaque 32-bit value; nothing in the graph logic ever reads
/// it, it is only stored on the edge.
#[derive(Clone)]
pub struct RatingRecord {
    pub user_id: u32,
    pub movie_id: u32,
    pub score: u32,
}

} // verus!
