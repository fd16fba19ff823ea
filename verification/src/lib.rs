//! Array-backed quadtree and level-of-detail tile search for terrain rendering.
pub mod quadtree;
pub mod ardh;
pub mod node_set;
pub mod skirt_grid;
