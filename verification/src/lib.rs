pub mod geom;
pub mod num;
pub mod tree;

pub use geom::{dist, Goal, Obstacle, COORD_LIMIT, STEP, UNITS};
pub use tree::{Node, Tree, MAX_NODES};
