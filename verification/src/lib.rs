//! A retained-mode layout engine for trees of visual elements on a character
//! grid: every node carries a sizing policy per dimension, a direction,
//! padding and a gap; three passes give every node a size and a position, and
//! a traversal paints each node clipped to the target surface.

pub mod agree;
pub mod axis;
pub mod bounds;
pub mod fit;
pub mod geometry;
pub mod grow;
pub mod laws;
pub mod layout;
pub mod levels;
pub mod policy;
pub mod position;
pub mod render;
pub mod share;
pub mod store;
pub mod tree;
pub mod ui;
