//! Spatial-query core of a voxel ship builder: a sparse occupancy grid with
//! voxel traversal, a discrete rotation algebra, an arena-backed binary tree
//! with pruned traversal, and the report that queries hand back.

pub mod grid;
pub mod walk;
pub mod growth;
pub mod orientation;
pub mod part;
pub mod part_grid;
pub mod panel;
pub mod report;
pub mod tree;
pub mod bvh;
pub mod box_line;
pub mod box_frame;
pub mod collider;
pub mod util;
pub mod key;
pub mod mouse;
