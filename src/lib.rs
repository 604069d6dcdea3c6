//! A double-ended priority queue kept in an explicit, unbalanced binary
//! search tree, with access by rank and a descending cursor that stops
//! cleanly when the queue it walks loses one of the nodes it still needs.

mod tree;
mod queue;
mod render;

pub use tree::Entry;
pub use render::render;
pub use queue::{DoublePriorityQueue, DescendingIter, IndexOutOfRange};
