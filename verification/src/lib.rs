use vstd::prelude::*;

pub mod explorer;
pub mod page_graph;
pub mod page_storage;
pub mod table;
pub mod text;

verus! {

/// How many breadth-first generations a crawl runs before it stops.
pub const GENERATION_CAP: usize = 4;

/// How many pages are processed between two mid-generation checkpoints.
pub const CHECKPOINT_INTERVAL: usize = 8;

pub fn checkpoint_due(page_index: usize) -> (r: bool)
    ensures
        r == (page_index % CHECKPOINT_INTERVAL == 0),
{
    page_index % CHECKPOINT_INTERVAL == 0
}

} // verus!
